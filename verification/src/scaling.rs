//! Scaling a non-negative rational vector to its minimal integer form.

use crate::error::GugenError;
use crate::frac::{abs, fits_i128, is_canonical, mul_pair, reduce, same_value, Frac};
use crate::linalg::Q;
use crate::numtheory::{
    divides, gcd, gcd_u128, lemma_divides_trans, lemma_divisor_le, lemma_gcd_divides,
    lemma_seq_gcd_divides, lemma_seq_gcd_scale, seq_gcd,
};
use crate::rref::fq;
use vstd::arithmetic::div_mod::{
    lemma_div_multiples_vanish, lemma_fundamental_div_mod, lemma_mod_multiples_basic,
    lemma_small_mod,
};
use vstd::arithmetic::mul::{lemma_mul_is_commutative, lemma_mul_strictly_positive};
use vstd::prelude::*;

verus! {
/// `lcm(a, b)` of two positive integers, as `a / gcd(a, b) * b`.
pub open spec fn lcm_of(a: int, b: int) -> int {
    (a / (gcd(a as nat, b as nat) as int)) * b
}

/// The least common multiple of the denominators of the nonzero entries
/// among the first `n`, folded left from 1; `None` once a step leaves the
/// `i128` range.
pub open spec fn den_lcm(v: Seq<Q>, n: int) -> Option<int>
    decreases n,
{
    if n <= 0 {
        Some(1)
    } else {
        match den_lcm(v, n - 1) {
            None => None,
            Some(a) => if v[n - 1].0 == 0 {
                Some(a)
            } else if fits_i128(lcm_of(a, v[n - 1].1)) {
                Some(lcm_of(a, v[n - 1].1))
            } else {
                None
            },
        }
    }
}

/// Absolute values, as naturals.
pub open spec fn abs_nats(s: Seq<int>) -> Seq<nat> {
    s.map_values(|x: int| abs(x) as nat)
}

/// The integers `v[i] * l` for a common multiple `l` of the denominators.
pub open spec fn scaled_ints(v: Seq<Q>, l: int) -> Seq<int> {
    Seq::new(v.len(), |i: int| v[i].0 * (l / v[i].1))
}

/// The gcd of the integers, or 1 when they are all zero.
pub open spec fn common_divisor(n: Seq<int>) -> int {
    let g = seq_gcd(abs_nats(n)) as int;
    if g > 1 {
        g
    } else {
        1
    }
}

/// What scaling a non-negative rational vector to its minimal integer
/// form yields: `None` when the lcm of the denominators, a scaled entry,
/// or a final entry leaves its integer range.
pub open spec fn scale_outcome(v: Seq<Q>) -> Option<Seq<int>> {
    match den_lcm(v, v.len() as int) {
        None => None,
        Some(l) => if exists|i: int| 0 <= i < v.len() && !fits_i128(#[trigger] v[i].0 * l) {
            None
        } else {
            let n = scaled_ints(v, l);
            let g = common_divisor(n);
            if exists|i: int| 0 <= i < v.len() && #[trigger] n[i] / g > u64::MAX {
                None
            } else {
                Some(Seq::new(v.len(), |i: int| n[i] / g))
            }
        },
    }
}

/// Entries are canonical and non-negative.
pub open spec fn nonneg_canonical(v: Seq<Q>) -> bool {
    forall|i: int| 0 <= i < v.len() ==> is_canonical(#[trigger] v[i]) && v[i].0 >= 0
}

/// `checked_lcm(a, b)` for positive `a`, `b`.
pub(crate) fn checked_lcm(a: i128, b: i128) -> (r: Option<i128>)
    requires
        a > 0,
        b > 0,
    ensures
        r is Some <==> fits_i128(lcm_of(a as int, b as int)),
        r is Some ==> r->Some_0 == lcm_of(a as int, b as int),
{
    let g0 = gcd_u128(a as u128, b as u128);
    proof {
        lemma_gcd_divides(a as nat, b as nat);
        lemma_divisor_le(g0 as nat, a as nat);
    }
    let g: i128 = if g0 > 1 { g0 as i128 } else { 1 };
    assert(g as int == gcd(a as nat, b as nat) as int);
    (a / g).checked_mul(b)
}

/// Facts about the folded lcm: it is positive and every denominator of a
/// nonzero entry divides it.
pub proof fn lemma_den_lcm(v: Seq<Q>, n: int)
    requires
        0 <= n <= v.len(),
        nonneg_canonical(v),
    ensures
        den_lcm(v, n) matches Some(l) ==> l > 0 && forall|i: int|
            0 <= i < n ==> #[trigger] (l % v[i].1) == 0,
    decreases n,
{
    if n > 0 {
        lemma_den_lcm(v, n - 1);
        if let Some(a) = den_lcm(v, n - 1) {
            let x = v[n - 1];
            assert(is_canonical(x));
            if x.0 == 0 {
                crate::numtheory::lemma_gcd_zero_left(x.1 as nat);
                assert(x.1 == 1);
                assert forall|i: int| 0 <= i < n implies #[trigger] (a % v[i].1) == 0 by {
                    if i == n - 1 {
                        lemma_small_mod(0, 1);
                        lemma_mod_multiples_basic(a, 1);
                    }
                }
            } else {
                let b = x.1;
                let g = gcd(a as nat, b as nat);
                lemma_gcd_divides(a as nat, b as nat);
                lemma_fundamental_div_mod(a, g as int);
                lemma_fundamental_div_mod(b, g as int);
                let a1 = a / (g as int);
                let b1 = b / (g as int);
                let l = lcm_of(a, b);
                assert(l == a1 * b);
                assert(a1 > 0 && b1 > 0) by (nonlinear_arith)
                    requires a == g * a1, b == g * b1, a > 0, b > 0, g > 0;
                assert(l == a * b1) by (nonlinear_arith)
                    requires l == a1 * b, a == g * a1, b == g * b1;
                lemma_mul_strictly_positive(a1, b);
                lemma_mod_multiples_basic(a1, b);
                lemma_mod_multiples_basic(b1, a);
                lemma_mul_is_commutative(a1, b);
                lemma_mul_is_commutative(b1, a);
                assert forall|i: int| 0 <= i < n implies #[trigger] (l % v[i].1) == 0 by {
                    if i < n - 1 {
                        assert(is_canonical(v[i]));
                        lemma_divides_trans(v[i].1 as nat, a as nat, l as nat);
                    }
                }
            }
        }
    }
}

/// `reduce(m * d, d) == (m, 1)` for positive `d`.
proof fn lemma_reduce_multiple(m: int, d: int)
    requires
        d > 0,
    ensures
        reduce(m * d, d) == (m, 1int),
{
    let n = m * d;
    assert(abs(n) == abs(m) * d) by (nonlinear_arith)
        requires n == m * d, d > 0;
    lemma_mod_multiples_basic(abs(m), d);
    lemma_mul_is_commutative(abs(m), d);
    assert(gcd(abs(n) as nat, d as nat) == gcd(d as nat, 0));
    lemma_mul_is_commutative(m, d);
    lemma_div_multiples_vanish(m, d);
    lemma_div_multiples_vanish(1, d);
}

/// Scales an all-non-negative rational vector to the minimal integer
/// vector with the same ratios: multiply through by the lcm of the
/// denominators, then divide by the gcd of the results. Returns `Ok(None)`
/// when a step overflows, so that one unrepresentable candidate does not
/// fail a whole search.
pub fn scale_to_integers(vector: &[Frac]) -> (r: Result<Option<Vec<u64>>, GugenError>)
    requires
        nonneg_canonical(fq(vector@)),
    ensures
        r is Ok,
        r->Ok_0 is None <==> scale_outcome(fq(vector@)) is None,
        r->Ok_0 matches Some(out) ==> out@.len() == vector@.len() && forall|i: int|
            0 <= i < out@.len() ==> out@[i] as int == (#[trigger] scale_outcome(
                fq(vector@),
            )->Some_0[i]),
{
    let ghost v = fq(vector@);
    let n = vector.len();
    let mut lcm: i128 = 1;
    let mut i: usize = 0;
    while i < n
        invariant
            i <= n,
            n == vector@.len(),
            v == fq(vector@),
            nonneg_canonical(v),
            den_lcm(v, i as int) == Some(lcm as int),
        decreases n - i,
    {
        proof {
            lemma_den_lcm(v, i as int);
            assert(v[i as int] == vector@[i as int]@);
        }
        let f = vector[i];
        if !f.is_zero() {
            match checked_lcm(lcm, f.denominator()) {
                None => {
                    proof {
                        assert(den_lcm(v, i + 1) is None);
                        assert forall|k: int| i + 1 <= k <= n implies #[trigger] den_lcm(v, k) is None by {
                            lemma_den_lcm_stays_none(v, i + 1, k);
                        }
                    }
                    return Ok(None);
                },
                Some(next) => {
                    lcm = next;
                },
            }
        }
        i = i + 1;
    }
    proof {
        lemma_den_lcm(v, n as int);
    }
    let ghost l = lcm as int;
    let lcm_frac = match Frac::new(lcm, 1) {
        Ok(x) => x,
        Err(e) => {
            return Err(e);
        },
    };
    proof {
        lemma_reduce_multiple(l, 1);
        assert(l * 1 == l);
    }
    let mut ints: Vec<i128> = Vec::new();
    let mut i: usize = 0;
    while i < n
        invariant
            i <= n,
            n == vector@.len(),
            v == fq(vector@),
            nonneg_canonical(v),
            l > 0,
            den_lcm(v, n as int) == Some(l),
            lcm_frac@ == (l, 1int),
            lcm_frac.wf(),
            forall|k: int| 0 <= k < n ==> #[trigger] (l % v[k].1) == 0,
            ints@.len() == i,
            forall|k: int| 0 <= k < i ==> fits_i128(#[trigger] v[k].0 * l),
            forall|k: int| 0 <= k < i ==> #[trigger] ints@[k] as int == scaled_ints(v, l)[k],
        decreases n - i,
    {
        let f = vector[i];
        proof {
            assert(v[i as int] == f@);
            f.lemma_view_bounds();
        }
        match f.checked_mul(lcm_frac) {
            Err(_) => {
                proof {
                    assert(f@.1 * 1 == f@.1);
                    assert(!fits_i128(v[i as int].0 * l));
                }
                return Ok(None);
            },
            Ok(scaled) => {
                proof {
                    let d = f@.1;
                    let q = l / d;
                    lemma_fundamental_div_mod(l, d);
                    assert(l == d * q);
                    assert(f@.0 * l == (f@.0 * q) * d) by (nonlinear_arith)
                        requires l == d * q;
                    assert(f@.1 * 1 == d);
                    lemma_reduce_multiple(f@.0 * q, d);
                }
                ints.push(scaled.numerator());
            },
        }
        i = i + 1;
    }
    let ghost ns = scaled_ints(v, l);
    assert(ints@.map_values(|x: i128| x as int) =~= ns);
    proof {
        assert forall|k: int| 0 <= k < n implies ns[k] >= 0 by {
            assert(v[k].0 >= 0 && v[k].1 > 0);
            lemma_fundamental_div_mod(l, v[k].1);
            assert(l / v[k].1 > 0) by (nonlinear_arith)
                requires l == v[k].1 * (l / v[k].1) + l % v[k].1, l % v[k].1 == 0, l > 0, v[k].1 > 0;
            assert(v[k].0 * (l / v[k].1) >= 0) by (nonlinear_arith)
                requires v[k].0 >= 0, l / v[k].1 > 0;
        }
    }
    let mut g: u128 = 0;
    let mut i: usize = 0;
    while i < n
        invariant
            i <= n,
            n == ints@.len(),
            forall|k: int| 0 <= k < n ==> #[trigger] ints@[k] as int == ns[k],
            forall|k: int| 0 <= k < n ==> ns[k] >= 0,
            ns.len() == n,
            ns == scaled_ints(v, l),
            v.len() == n,
            den_lcm(v, n as int) == Some(l),
            forall|k: int| 0 <= k < n ==> fits_i128(#[trigger] v[k].0 * l),
            g as nat == seq_gcd(abs_nats(ns).take(i as int)),
        decreases n - i,
    {
        let x = ints[i];
        let ghost s0 = abs_nats(ns).take(i as int);
        let ghost s1 = abs_nats(ns).take(i + 1);
        proof {
            assert(s1.drop_last() =~= s0);
            assert(s1.last() == abs(ns[i as int]) as nat);
        }
        if x != 0 {
            g = gcd_u128(g, x as u128);
        }
        i = i + 1;
    }
    proof {
        assert(abs_nats(ns).take(n as int) =~= abs_nats(ns));
        lemma_seq_gcd_divides(abs_nats(ns));
        if g > 0 {
            let j = choose|j: int| 0 <= j < n && abs_nats(ns)[j] != 0;
            lemma_divisor_le(g as nat, abs_nats(ns)[j]);
            assert(ints@[j] as int == ns[j]);
        }
    }
    let g: i128 = if g > 1 { g as i128 } else { 1 };
    let ghost cd = common_divisor(ns);
    assert(g as int == cd);
    let mut out: Vec<u64> = Vec::new();
    let mut i: usize = 0;
    while i < n
        invariant
            i <= n,
            n == ints@.len(),
            forall|k: int| 0 <= k < n ==> #[trigger] ints@[k] as int == ns[k],
            forall|k: int| 0 <= k < n ==> ns[k] >= 0,
            g as int == cd,
            cd >= 1,
            cd == common_divisor(ns),
            ns == scaled_ints(v, l),
            v == fq(vector@),
            v.len() == n,
            den_lcm(v, n as int) == Some(l),
            forall|k: int| 0 <= k < n ==> fits_i128(#[trigger] v[k].0 * l),
            out@.len() == i,
            forall|k: int| 0 <= k < i ==> #[trigger] ns[k] / cd <= u64::MAX,
            forall|k: int| 0 <= k < i ==> #[trigger] out@[k] as int == ns[k] / cd,
        decreases n - i,
    {
        let x = ints[i];
        let reduced = x / g;
        if reduced < 0 || reduced > 18446744073709551615i128 {
            proof {
                assert(ns[i as int] / cd > u64::MAX);
                assert(!(exists|k: int| 0 <= k < v.len() && !fits_i128(#[trigger] v[k].0 * l)));
                assert(exists|k: int| 0 <= k < v.len() && #[trigger] ns[k] / cd > u64::MAX);
            }
            return Ok(None);
        }
        out.push(reduced as u64);
        i = i + 1;
    }
    proof {
        let so = scale_outcome(v);
        assert(!(exists|k: int| 0 <= k < v.len() && !fits_i128(#[trigger] v[k].0 * l)));
        assert(!(exists|k: int| 0 <= k < v.len() && #[trigger] ns[k] / cd > u64::MAX));
        assert(so == Some(Seq::new(v.len(), |k: int| ns[k] / cd)));
    }
    Ok(Some(out))
}

/// Once the folded lcm has overflowed it stays overflowed.
pub proof fn lemma_den_lcm_stays_none(v: Seq<Q>, a: int, b: int)
    requires
        0 <= a <= b,
        den_lcm(v, a) is None,
    ensures
        den_lcm(v, b) is None,
    decreases b - a,
{
    if a < b {
        lemma_den_lcm_stays_none(v, a, b - 1);
    }
}

/// The scaled integers divided by their common divisor.
pub open spec fn reduced_ints(v: Seq<Q>, l: int) -> Seq<int> {
    let n = scaled_ints(v, l);
    let g = common_divisor(n);
    Seq::new(v.len(), |i: int| n[i] / g)
}

/// The reduced integers, for the folded lcm `l`: non-negative, proportional
/// to the input by the positive factor `l / cd`, with gcd 1 unless all are
/// zero.
pub proof fn lemma_reduced_ints(v: Seq<Q>, l: int)
    requires
        nonneg_canonical(v),
        den_lcm(v, v.len() as int) == Some(l),
    ensures
        ({
            let out = reduced_ints(v, l);
            let cd = common_divisor(scaled_ints(v, l));
            &&& out.len() == v.len()
            &&& l > 0
            &&& cd > 0
            &&& forall|i: int|
                0 <= i < v.len() ==> #[trigger] out[i] >= 0 && same_value(
                    (out[i], 1int),
                    mul_pair(v[i], (l, cd)),
                )
            &&& (exists|i: int| 0 <= i < v.len() && #[trigger] out[i] != 0) ==> seq_gcd(
                abs_nats(out),
            ) == 1
        }),
{
    let out = reduced_ints(v, l);
    let ns = scaled_ints(v, l);
    let cd = common_divisor(ns);
    lemma_den_lcm(v, v.len() as int);
    let g = seq_gcd(abs_nats(ns));
    lemma_seq_gcd_divides(abs_nats(ns));
    assert forall|i: int| 0 <= i < v.len() implies #[trigger] out[i] >= 0 && same_value(
        (out[i], 1int),
        mul_pair(v[i], (l, cd)),
    ) && ns[i] == cd * out[i] by {
        let x = v[i];
        assert(is_canonical(x) && x.0 >= 0);
        lemma_fundamental_div_mod(l, x.1);
        let q = l / x.1;
        assert(l == x.1 * q);
        assert(q > 0) by (nonlinear_arith)
            requires l == x.1 * q, l > 0, x.1 > 0;
        assert(ns[i] == x.0 * q);
        assert(ns[i] >= 0) by (nonlinear_arith)
            requires ns[i] == x.0 * q, x.0 >= 0, q > 0;
        assert(abs_nats(ns)[i] == ns[i]);
        if g == 0 {
            assert(abs_nats(ns)[i] == 0);
            assert(cd == 1);
            assert(out[i] == ns[i] / 1);
            assert(x.0 == 0) by (nonlinear_arith)
                requires x.0 * q == 0, q > 0, x.0 >= 0;
            assert(out[i] == 0);
            assert(out[i] * (x.1 * cd) == (x.0 * l) * 1) by (nonlinear_arith)
                requires x.0 == 0, out[i] == 0;
            assert(ns[i] == cd * out[i]);
        } else {
            assert(cd == g);
            assert(divides(g, abs_nats(ns)[i]));
            lemma_fundamental_div_mod(ns[i], cd);
            assert(ns[i] == cd * out[i]);
            assert(out[i] >= 0) by (nonlinear_arith)
                requires ns[i] == cd * out[i], ns[i] >= 0, cd > 0;
            assert(out[i] * (x.1 * cd) == (x.0 * l) * 1) by (nonlinear_arith)
                requires ns[i] == cd * out[i], ns[i] == x.0 * q, l == x.1 * q;
        }
        assert(mul_pair(x, (l, cd)) == (x.0 * l, x.1 * cd));
        assert(same_value((out[i], 1int), mul_pair(x, (l, cd))));
    }
    if exists|i: int| 0 <= i < v.len() && #[trigger] out[i] != 0 {
        let j = choose|j: int| 0 <= j < v.len() && #[trigger] out[j] != 0;
        assert(g != 0) by {
            if g == 0 {
                assert(abs_nats(ns)[j] == 0);
                assert(ns[j] == cd * out[j]);
                assert(cd * out[j] != 0) by (nonlinear_arith)
                    requires cd > 0, out[j] != 0;
            }
        }
        assert(cd == g);
        assert forall|i: int| 0 <= i < abs_nats(ns).len() implies #[trigger] abs_nats(ns)[i]
            == g * abs_nats(out)[i] by {
            assert(ns[i] == cd * out[i]);
            assert(out[i] >= 0);
        }
        lemma_seq_gcd_scale(abs_nats(ns), abs_nats(out), g);
        assert(g * seq_gcd(abs_nats(out)) == g * 1);
        vstd::arithmetic::mul::lemma_mul_equality_converse(
            g as int,
            seq_gcd(abs_nats(out)) as int,
            1,
        );
    }
}


/// What scaling yields, restated: non-negative integers proportional to
/// the input by the positive factor `lcm / gcd`, with gcd 1 unless all
/// are zero.
pub proof fn lemma_scale_outcome(v: Seq<Q>)
    requires
        nonneg_canonical(v),
        scale_outcome(v) is Some,
    ensures
        ({
            let out = scale_outcome(v)->Some_0;
            let l = den_lcm(v, v.len() as int)->Some_0;
            let cd = common_divisor(scaled_ints(v, l));
            &&& out.len() == v.len()
            &&& l > 0
            &&& cd > 0
            &&& forall|i: int|
                0 <= i < v.len() ==> #[trigger] out[i] >= 0 && same_value(
                    (out[i], 1int),
                    mul_pair(v[i], (l, cd)),
                )
            &&& (exists|i: int| 0 <= i < v.len() && #[trigger] out[i] != 0) ==> seq_gcd(
                abs_nats(out),
            ) == 1
        }),
{
    let l = den_lcm(v, v.len() as int)->Some_0;
    lemma_reduced_ints(v, l);
    assert(scale_outcome(v)->Some_0 =~= reduced_ints(v, l));
}

} // verus!
