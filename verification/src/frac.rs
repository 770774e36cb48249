//! Exact rationals backed by checked `i128` arithmetic. Every value is kept
//! in canonical form (`den > 0`, `gcd(|num|, den) == 1`); every operation
//! reports overflow instead of panicking or wrapping.

use crate::error::GugenError;
use crate::numtheory::{
    gcd, gcd_u128, lemma_divisor_le, lemma_gcd_divides, lemma_gcd_quotients_coprime,
    lemma_gcd_zero_left,
};
use vstd::arithmetic::div_mod::{
    lemma_div_basics, lemma_div_by_self, lemma_div_multiples_vanish, lemma_div_of0, lemma_fundamental_div_mod,
    lemma_fundamental_div_mod_converse, lemma_mod_self_0,
};
use vstd::arithmetic::mul::*;
use vstd::prelude::*;

verus! {

/// Absolute value of an integer.
pub open spec fn abs(x: int) -> int {
    if x < 0 { -x } else { x }
}

/// Canonical form of a rational given as a numerator/denominator pair.
pub open spec fn is_canonical(q: (int, int)) -> bool {
    &&& q.1 > 0
    &&& gcd(abs(q.0) as nat, q.1 as nat) == 1
}

/// The canonical representative of `n / d` (`d != 0`): sign moved to the
/// numerator, common factor divided out.
pub open spec fn reduce(n: int, d: int) -> (int, int)
    recommends
        d != 0,
{
    let n2 = if d < 0 { -n } else { n };
    let d2 = if d < 0 { -d } else { d };
    let g = gcd(abs(n2) as nat, d2 as nat) as int;
    (n2 / g, d2 / g)
}

/// Two numerator/denominator pairs denote the same rational.
pub open spec fn same_value(a: (int, int), b: (int, int)) -> bool {
    a.0 * b.1 == b.0 * a.1
}

/// Whether `x` is representable as an `i128`.
pub open spec fn fits_i128(x: int) -> bool {
    i128::MIN <= x <= i128::MAX
}

/// Adding `b` to `a` exactly keeps both cross products, their sum and the
/// denominator product within `i128`, as [`Frac::checked_add`] requires.
pub open spec fn add_fits(a: (int, int), b: (int, int)) -> bool {
    &&& fits_i128(a.0 * b.1)
    &&& fits_i128(b.0 * a.1)
    &&& fits_i128(a.0 * b.1 + b.0 * a.1)
    &&& fits_i128(a.1 * b.1)
}

/// Multiplying `a` by `b` exactly keeps both products within `i128`, as
/// [`Frac::checked_mul`] requires.
pub open spec fn mul_fits(a: (int, int), b: (int, int)) -> bool {
    fits_i128(a.0 * b.0) && fits_i128(a.1 * b.1)
}

/// Dividing `a` by `b` exactly stays within `i128`, as
/// [`Frac::checked_div`] requires.
pub open spec fn div_fits(a: (int, int), b: (int, int)) -> bool {
    &&& b.0 != 0
    &&& fits_i128(a.0 * b.1)
    &&& fits_i128(a.1 * b.0)
    &&& !(a.1 * b.0 < 0 && (a.0 * b.1 == i128::MIN || a.1 * b.0 == i128::MIN))
}

/// Subtracting `b` from `a` exactly stays within `i128`, as
/// [`Frac::checked_sub`] requires.
pub open spec fn sub_fits(a: (int, int), b: (int, int)) -> bool {
    &&& b.0 != i128::MIN
    &&& fits_i128(a.0 * b.1)
    &&& fits_i128(-b.0 * a.1)
    &&& fits_i128(a.0 * b.1 + -b.0 * a.1)
    &&& fits_i128(a.1 * b.1)
}

/// Sum of two numerator/denominator pairs, before reduction.
pub open spec fn add_pair(a: (int, int), b: (int, int)) -> (int, int) {
    (a.0 * b.1 + b.0 * a.1, a.1 * b.1)
}

/// Product of two numerator/denominator pairs, before reduction.
pub open spec fn mul_pair(a: (int, int), b: (int, int)) -> (int, int) {
    (a.0 * b.0, a.1 * b.1)
}

/// An exact rational number. Always canonical (see [`is_canonical`]).
#[derive(Debug, Clone, Copy, PartialEq, Eq, PartialOrd, Ord)]
pub struct Frac {
    num: i128,
    den: i128,
}

impl View for Frac {
    type V = (int, int);

    closed spec fn view(&self) -> (int, int) {
        (self.num as int, self.den as int)
    }
}

/// `|x|` as `u128`, exact for every `i128` including `i128::MIN`.
fn unsigned_abs(x: i128) -> (r: u128)
    ensures
        r as int == abs(x as int),
{
    if x >= 0 {
        x as u128
    } else {
        ((-(x + 1)) as u128) + 1
    }
}

/// `reduce` yields a canonical pair denoting the same rational.
pub proof fn lemma_reduce(n: int, d: int)
    requires
        d != 0,
    ensures
        is_canonical(reduce(n, d)),
        same_value(reduce(n, d), (n, d)),
        abs(reduce(n, d).0) <= abs(n),
        reduce(n, d).1 <= abs(d),
        (if d < 0 { -n } else { n }) == reduce(n, d).0 * gcd(
            abs(if d < 0 { -n } else { n }) as nat,
            abs(d) as nat,
        ),
{
    let n2 = if d < 0 { -n } else { n };
    let d2 = if d < 0 { -d } else { d };
    let a = abs(n2) as nat;
    let b = d2 as nat;
    let g = gcd(a, b);
    lemma_gcd_divides(a, b);
    lemma_gcd_quotients_coprime(a, b);
    lemma_fundamental_div_mod(a as int, g as int);
    lemma_fundamental_div_mod(b as int, g as int);
    let k = a / g;
    let m = b / g;
    assert(a == g * k);
    assert(b == g * m);
    let sk: int = if n2 < 0 { -(k as int) } else { k as int };
    assert(n2 == sk * (g as int) + 0) by (nonlinear_arith)
        requires a == g * k, a == abs(n2), sk == (if n2 < 0 { -(k as int) } else { k as int });
    lemma_fundamental_div_mod_converse(n2, g as int, sk, 0);
    assert(d2 == (m as int) * (g as int) + 0) by (nonlinear_arith)
        requires b == g * m, b == d2;
    lemma_fundamental_div_mod_converse(d2, g as int, m as int, 0);
    let q = reduce(n, d);
    assert(q.0 == sk);
    assert(q.1 == m);
    assert(abs(q.0) as nat == a / g);
    assert(n2 == (g as int) * q.0) by (nonlinear_arith)
        requires n2 == sk * (g as int), q.0 == sk;
    assert(d2 == (g as int) * q.1) by (nonlinear_arith)
        requires d2 == (m as int) * (g as int), q.1 == m;
    assert(q.1 > 0) by (nonlinear_arith)
        requires d2 == (g as int) * q.1, d2 > 0, g > 0;
    assert(same_value(q, (n, d))) by (nonlinear_arith)
        requires
            n2 == (g as int) * q.0,
            d2 == (g as int) * q.1,
            n2 == (if d < 0 { -n } else { n }),
            d2 == (if d < 0 { -d } else { d });
    lemma_divisor_le(g, b);
    assert(q.1 <= d2) by (nonlinear_arith)
        requires d2 == (g as int) * q.1, q.1 > 0, g >= 1;
    assert(abs(q.0) <= abs(n2)) by (nonlinear_arith)
        requires abs(n2) == (g as int) * abs(q.0), g >= 1, abs(q.0) >= 0;
}

/// `a / b < c / d` for non-negative numerators and positive denominators,
/// decided without forming a product: compare the integer parts, then the
/// remainders, whose comparison is the reversed comparison of their
/// reciprocals (a continued-fraction expansion of both sides).
fn ratio_lt(a: u128, b: u128, c: u128, d: u128) -> (r: bool)
    requires
        b > 0,
        d > 0,
    ensures
        r == (a * d < c * b),
    decreases b + d,
{
    let qa = a / b;
    let ra = a % b;
    let qc = c / d;
    let rc = c % d;
    proof {
        lemma_fundamental_div_mod(a as int, b as int);
        lemma_fundamental_div_mod(c as int, d as int);
        vstd::arithmetic::div_mod::lemma_mod_bound(a as int, b as int);
        vstd::arithmetic::div_mod::lemma_mod_bound(c as int, d as int);
    }
    if qa < qc {
        proof {
            assert(a * d < c * b) by (nonlinear_arith)
                requires
                    a == b * qa + ra,
                    c == d * qc + rc,
                    ra < b,
                    qa + 1 <= qc,
                    b > 0,
                    d > 0,
            ;
        }
        return true;
    }
    if qc < qa {
        proof {
            assert(c * b < a * d) by (nonlinear_arith)
                requires
                    a == b * qa + ra,
                    c == d * qc + rc,
                    rc < d,
                    qc + 1 <= qa,
                    b > 0,
                    d > 0,
            ;
        }
        return false;
    }
    proof {
        assert((a * d < c * b) == (ra * d < rc * b)) by (nonlinear_arith)
            requires
                a == b * qa + ra,
                c == d * qc + rc,
                qa == qc,
        ;
    }
    if rc == 0 {
        proof {
            assert(ra * d >= 0) by (nonlinear_arith);
            assert(rc * b == 0) by (nonlinear_arith)
                requires rc == 0;
        }
        return false;
    }
    if ra == 0 {
        proof {
            assert(ra * d == 0) by (nonlinear_arith)
                requires ra == 0;
            assert(rc * b > 0) by (nonlinear_arith)
                requires rc > 0, b > 0;
        }
        return true;
    }
    proof {
        assert((d * ra < b * rc) == (ra * d < rc * b)) by (nonlinear_arith);
    }
    ratio_lt(d, rc, b, ra)
}

impl Frac {
    /// The representation invariant: canonical form.
    pub open spec fn wf(self) -> bool {
        is_canonical(self@)
    }

    /// Two well-formed values with the same view are the same value.
    pub proof fn lemma_view_injective(a: Frac, b: Frac)
        ensures
            a@ == b@ ==> a == b,
    {
    }

    /// Every view of a `Frac` fits the `i128` range.
    pub proof fn lemma_view_bounds(self)
        ensures
            i128::MIN <= self@.0 <= i128::MAX,
            i128::MIN <= self@.1 <= i128::MAX,
    {
    }

    /// Builds `num / den` in canonical form. `Err(ArithmeticOverflow)` when
    /// `den == 0`, or when `den < 0` and negating `num` or `den` would
    /// overflow.
    pub fn new(num: i128, den: i128) -> (r: Result<Frac, GugenError>)
        ensures
            r is Err <==> (den == 0 || (den < 0 && (num == i128::MIN || den == i128::MIN))),
            r is Err ==> r->Err_0 == GugenError::ArithmeticOverflow,
            r is Ok ==> r->Ok_0.wf() && r->Ok_0@ == reduce(num as int, den as int),
    {
        if den == 0 {
            return Err(GugenError::ArithmeticOverflow);
        }
        let (n2, d2) = if den < 0 {
            if num == i128::MIN || den == i128::MIN {
                return Err(GugenError::ArithmeticOverflow);
            }
            (-num, -den)
        } else {
            (num, den)
        };
        let g0 = gcd_u128(unsigned_abs(n2), unsigned_abs(d2));
        proof {
            lemma_gcd_divides(abs(n2 as int) as nat, d2 as nat);
            lemma_divisor_le(g0 as nat, d2 as nat);
            lemma_reduce(num as int, den as int);
        }
        let g: i128 = if g0 > 1 { g0 as i128 } else { 1 };
        assert(g as int == g0 as int);
        proof {
            let r0 = reduce(num as int, den as int).0;
            assert(n2 as int == r0 * (g as int));
            assert((n2 as int) * -1 == (g as int) * (-r0)) by (nonlinear_arith)
                requires n2 as int == r0 * (g as int);
            lemma_div_multiples_vanish(-r0, g as int);
            assert((n2 as int) == (g as int) * r0) by (nonlinear_arith)
                requires n2 as int == r0 * (g as int);
            lemma_div_multiples_vanish(r0, g as int);
        }
        // Exact division: `g` divides both, so truncation loses nothing.
        let q = match n2.checked_div(g) {
            Some(q) => q,
            None => return Err(GugenError::ArithmeticOverflow),
        };
        let e = d2 / g;
        assert(q as int == (n2 as int) / (g as int));
        proof {
            let pair = reduce(num as int, den as int);
            assert(pair.1 == (d2 as int) / (g as int));
            assert(pair.0 == (n2 as int) / (g as int));
        }
        Ok(Frac { num: q, den: e })
    }

    /// Zero, `0/1`.
    pub fn zero() -> (r: Frac)
        ensures
            r.wf(),
            r@ == (0int, 1int),
    {
        proof {
            lemma_gcd_zero_left(1);
        }
        Frac { num: 0, den: 1 }
    }

    /// One, `1/1`.
    pub fn one() -> (r: Frac)
        ensures
            r.wf(),
            r@ == (1int, 1int),
    {
        assert(gcd(1, 1) == 1) by {
            lemma_mod_self_0(1);
            assert(gcd(1, 1) == gcd(1, 0));
        }
        Frac { num: 1, den: 1 }
    }

    pub fn is_zero(&self) -> (r: bool)
        ensures
            r == (self@.0 == 0),
    {
        self.num == 0
    }

    pub fn numerator(&self) -> (r: i128)
        ensures
            r as int == self@.0,
    {
        self.num
    }

    pub fn denominator(&self) -> (r: i128)
        ensures
            r as int == self@.1,
    {
        self.den
    }

    /// `self < other`, exactly and without overflow.
    pub fn less_than(&self, other: &Frac) -> (r: bool)
        requires
            self.wf(),
            other.wf(),
        ensures
            r == (self@.0 * other@.1 < other@.0 * self@.1),
    {
        let a = self.num;
        let b = self.den;
        let c = other.num;
        let d = other.den;
        if a < 0 && c >= 0 {
            assert(a * d < 0 && c * b >= 0) by (nonlinear_arith)
                requires a < 0, c >= 0, b > 0, d > 0;
            return true;
        }
        if a >= 0 && c < 0 {
            assert(a * d >= 0 && c * b < 0) by (nonlinear_arith)
                requires a >= 0, c < 0, b > 0, d > 0;
            return false;
        }
        if a >= 0 {
            let r = ratio_lt(a as u128, b as u128, c as u128, d as u128);
            return r;
        }
        // Both negative: a/b < c/d exactly when |c|/d < |a|/b.
        let r = ratio_lt(unsigned_abs(c), d as u128, unsigned_abs(a), b as u128);
        proof {
            assert((abs(c as int) * (b as int) < abs(a as int) * (d as int)) == ((a as int) * (d as int)
                < (c as int) * (b as int))) by (nonlinear_arith)
                requires a < 0, c < 0, abs(a as int) == -a, abs(c as int) == -c;
        }
        r
    }

    /// `self <= other`, exactly and without overflow.
    pub fn at_most(&self, other: &Frac) -> (r: bool)
        requires
            self.wf(),
            other.wf(),
        ensures
            r == (self@.0 * other@.1 <= other@.0 * self@.1),
    {
        !other.less_than(self)
    }

    /// `-self`; `Err(ArithmeticOverflow)` exactly when the numerator is
    /// `i128::MIN`.
    pub fn checked_neg(self) -> (r: Result<Frac, GugenError>)
        requires
            self.wf(),
        ensures
            r is Err <==> self@.0 == i128::MIN,
            r is Err ==> r->Err_0 == GugenError::ArithmeticOverflow,
            r is Ok ==> r->Ok_0.wf() && r->Ok_0@ == (-self@.0, self@.1),
    {
        if self.num == i128::MIN {
            return Err(GugenError::ArithmeticOverflow);
        }
        assert(abs(-self@.0) == abs(self@.0));
        Ok(Frac { num: -self.num, den: self.den })
    }

    /// `self + other`, exactly, in canonical form. `Err(ArithmeticOverflow)`
    /// exactly when a cross product, their sum, or the denominator product
    /// leaves the `i128` range.
    pub fn checked_add(self, other: Frac) -> (r: Result<Frac, GugenError>)
        requires
            self.wf(),
            other.wf(),
        ensures
            r is Err <==> !(fits_i128(self@.0 * other@.1) && fits_i128(other@.0 * self@.1)
                && fits_i128(self@.0 * other@.1 + other@.0 * self@.1) && fits_i128(
                self@.1 * other@.1,
            )),
            r is Err ==> r->Err_0 == GugenError::ArithmeticOverflow,
            r is Ok ==> r->Ok_0.wf() && r->Ok_0@ == reduce(
                add_pair(self@, other@).0,
                add_pair(self@, other@).1,
            ),
    {
        let a = match self.num.checked_mul(other.den) {
            Some(a) => a,
            None => return Err(GugenError::ArithmeticOverflow),
        };
        let b = match other.num.checked_mul(self.den) {
            Some(b) => b,
            None => return Err(GugenError::ArithmeticOverflow),
        };
        let num = match a.checked_add(b) {
            Some(n) => n,
            None => return Err(GugenError::ArithmeticOverflow),
        };
        let den = match self.den.checked_mul(other.den) {
            Some(d) => d,
            None => return Err(GugenError::ArithmeticOverflow),
        };
        assert(den > 0) by (nonlinear_arith)
            requires den == self@.1 * other@.1, self@.1 > 0, other@.1 > 0;
        Frac::new(num, den)
    }

    /// `self - other`, computed as `self + (-other)`.
    pub fn checked_sub(self, other: Frac) -> (r: Result<Frac, GugenError>)
        requires
            self.wf(),
            other.wf(),
        ensures
            r is Err <==> (other@.0 == i128::MIN || !(fits_i128(self@.0 * other@.1)
                && fits_i128(-other@.0 * self@.1) && fits_i128(
                self@.0 * other@.1 + -other@.0 * self@.1,
            ) && fits_i128(self@.1 * other@.1))),
            r is Err ==> r->Err_0 == GugenError::ArithmeticOverflow,
            r is Ok ==> r->Ok_0.wf() && r->Ok_0@ == reduce(
                add_pair(self@, (-other@.0, other@.1)).0,
                add_pair(self@, (-other@.0, other@.1)).1,
            ),
    {
        let neg = match other.checked_neg() {
            Ok(n) => n,
            Err(e) => return Err(e),
        };
        self.checked_add(neg)
    }

    /// `self * other`, exactly, in canonical form.
    pub fn checked_mul(self, other: Frac) -> (r: Result<Frac, GugenError>)
        requires
            self.wf(),
            other.wf(),
        ensures
            r is Err <==> !(fits_i128(self@.0 * other@.0) && fits_i128(self@.1 * other@.1)),
            r is Err ==> r->Err_0 == GugenError::ArithmeticOverflow,
            r is Ok ==> r->Ok_0.wf() && r->Ok_0@ == reduce(
                mul_pair(self@, other@).0,
                mul_pair(self@, other@).1,
            ),
    {
        let num = match self.num.checked_mul(other.num) {
            Some(n) => n,
            None => return Err(GugenError::ArithmeticOverflow),
        };
        let den = match self.den.checked_mul(other.den) {
            Some(d) => d,
            None => return Err(GugenError::ArithmeticOverflow),
        };
        assert(den > 0) by (nonlinear_arith)
            requires den == self@.1 * other@.1, self@.1 > 0, other@.1 > 0;
        Frac::new(num, den)
    }

    /// `self / other`: multiplication by the reciprocal
    /// `other.den / other.num`. `Err(ArithmeticOverflow)` when `other` is
    /// zero or the products overflow.
    pub fn checked_div(self, other: Frac) -> (r: Result<Frac, GugenError>)
        requires
            self.wf(),
            other.wf(),
        ensures
            r is Err <==> (other@.0 == 0 || !(fits_i128(self@.0 * other@.1) && fits_i128(
                self@.1 * other@.0,
            )) || (self@.1 * other@.0 < 0 && (self@.0 * other@.1 == i128::MIN || self@.1
                * other@.0 == i128::MIN))),
            r is Err ==> r->Err_0 == GugenError::ArithmeticOverflow,
            r is Ok ==> r->Ok_0.wf() && r->Ok_0@ == reduce(
                self@.0 * other@.1,
                self@.1 * other@.0,
            ),
    {
        if other.num == 0 {
            return Err(GugenError::ArithmeticOverflow);
        }
        let num = match self.num.checked_mul(other.den) {
            Some(n) => n,
            None => return Err(GugenError::ArithmeticOverflow),
        };
        let den = match self.den.checked_mul(other.num) {
            Some(d) => d,
            None => return Err(GugenError::ArithmeticOverflow),
        };
        assert(den != 0) by (nonlinear_arith)
            requires den == self@.1 * other@.0, self@.1 > 0, other@.0 != 0;
        Frac::new(num, den)
    }
}

} // verus!

verus! {

/// A canonical pair reduces to itself.
pub proof fn lemma_reduce_canonical(q: (int, int))
    requires
        is_canonical(q),
    ensures
        reduce(q.0, q.1) == q,
{
    lemma_div_basics(q.0);
    lemma_div_basics(q.1);
}

/// Zero reduces to `0/1`.
pub proof fn lemma_reduce_zero(d: int)
    requires
        d != 0,
    ensures
        reduce(0, d) == (0int, 1int),
{
    let d2 = if d < 0 { -d } else { d };
    lemma_gcd_zero_left(d2 as nat);
    lemma_div_by_self(d2);
    lemma_div_of0(d2);
}

/// `n / n` reduces to `1/1`.
pub proof fn lemma_reduce_self(n: int)
    requires
        n != 0,
    ensures
        reduce(n, n) == (1int, 1int),
{
    let n2 = if n < 0 { -n } else { n };
    lemma_gcd_self(n2 as nat);
    lemma_div_by_self(n2);
}

/// `gcd(n, n) == n`.
proof fn lemma_gcd_self(n: nat)
    ensures
        gcd(n, n) == n,
{
    if n > 0 {
        lemma_mod_self_0(n as int);
        assert(gcd(n, n) == gcd(n, 0));
    }
}

/// Reducing a fraction with a positive denominator keeps the numerator's
/// sign.
pub proof fn lemma_reduce_sign(n: int, d: int)
    requires
        d > 0,
    ensures
        (reduce(n, d).0 > 0) <==> (n > 0),
        (reduce(n, d).0 == 0) <==> (n == 0),
        reduce(n, d).1 > 0,
{
    lemma_reduce(n, d);
    let g = gcd(abs(n) as nat, d as nat) as int;
    lemma_gcd_divides(abs(n) as nat, d as nat);
    assert(n == reduce(n, d).0 * g);
    if n > 0 {
        assert(reduce(n, d).0 > 0) by (nonlinear_arith)
            requires n == reduce(n, d).0 * g, n > 0, g > 0;
    }
    if reduce(n, d).0 > 0 {
        assert(n > 0) by (nonlinear_arith)
            requires n == reduce(n, d).0 * g, reduce(n, d).0 > 0, g > 0;
    }
    if reduce(n, d).0 == 0 {
        assert(n == 0) by (nonlinear_arith)
            requires n == reduce(n, d).0 * g, reduce(n, d).0 == 0;
    }
}

/// A whole number is in lowest terms over 1.
pub proof fn lemma_reduce_whole(n: int)
    ensures
        reduce(n, 1) == (n, 1int),
{
    let a = abs(n) as nat;
    assert(gcd(a, 1) == 1) by {
        vstd::arithmetic::div_mod::lemma_mod_multiples_basic(a as int, 1);
        assert(a % 1 == 0);
        assert(gcd(a, 1) == gcd(1, 0));
    }
    lemma_reduce_canonical((n, 1int));
}

} // verus!
