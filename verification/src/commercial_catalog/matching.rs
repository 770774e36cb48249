//! Scale-free matching of compositions: `Fe2O3` and `Fe4O6` reduce to one
//! canonical key, the element amounts in lowest integer terms, computed in
//! exact rational arithmetic. A single-element composition has no key: its
//! atom count names an allotrope (`O2` and `O3` are different substances).

use crate::commercial_catalog::model::{
    compositions_wf, CommercialPrecursorCatalog, CommercialPrecursorOffer,
};
use crate::composition::{Composition, Element};
use crate::frac::{fits_i128, is_canonical, mul_pair, same_value, Frac};
use crate::linalg::Q;
use crate::numtheory::{gcd_u128, lemma_divisor_le, lemma_seq_gcd_divides, lemma_seq_gcd_scale, seq_gcd};
use crate::scaling::{
    abs_nats, checked_lcm, common_divisor, den_lcm, lemma_den_lcm, lemma_den_lcm_stays_none,
    lemma_reduced_ints, nonneg_canonical, reduced_ints, scaled_ints,
};
use vstd::arithmetic::div_mod::lemma_fundamental_div_mod;
use vstd::prelude::*;

verus! {

/// The amounts of a listing, in listing order.
pub open spec fn listing_amounts(s: Seq<(Element, Frac)>) -> Seq<Q> {
    Seq::new(s.len(), |i: int| s[i].1@)
}

/// The key of positive amounts: the amounts scaled by the lcm of their
/// denominators, divided by the gcd of the results; `None` when the lcm or
/// a scaled amount leaves the `i128` range.
pub open spec fn ratio_key_values(v: Seq<Q>) -> Option<Seq<int>> {
    match den_lcm(v, v.len() as int) {
        None => None,
        Some(l) => if exists|i: int| 0 <= i < v.len() && !fits_i128(#[trigger] scaled_ints(v, l)[i]) {
            None
        } else {
            Some(reduced_ints(v, l))
        },
    }
}

/// The canonical ratio key of a composition, in element order; `None` for
/// a single element and on overflow.
pub open spec fn ratio_key(c: Composition) -> Option<Seq<(Element, int)>> {
    let s = c.listing();
    if s.len() <= 1 {
        None
    } else {
        match ratio_key_values(listing_amounts(s)) {
            None => None,
            Some(k) => Some(Seq::new(s.len(), |i: int| (s[i].0, k[i]))),
        }
    }
}

/// A computed key, as integers.
pub open spec fn key_view(out: Seq<(Element, i128)>) -> Seq<(Element, int)> {
    Seq::new(out.len(), |i: int| (out[i].0, out[i].1 as int))
}

/// The amounts of a well-formed composition are positive canonical
/// rationals.
proof fn lemma_listing_amounts(c: Composition)
    requires
        c.wf(),
    ensures
        nonneg_canonical(listing_amounts(c.listing())),
        forall|i: int| 0 <= i < c.listing().len() ==> #[trigger] listing_amounts(c.listing())[i].0 > 0,
{
    c.lemma_wf();
    let s = c.listing();
    assert forall|i: int| 0 <= i < s.len() implies is_canonical(#[trigger] listing_amounts(s)[i])
        && listing_amounts(s)[i].0 >= 0 by {
        assert(s[i].1.wf());
    }
}

/// Reduces a composition's amounts to lowest integer terms: `Fe2O3` and
/// `Fe4O6` both give `[(Fe, 2), (O, 3)]`, in element order. `None` for a
/// single element, and when the exact reduction overflows `i128`.
pub fn canonical_ratio_key(composition: &Composition) -> (r: Option<Vec<(Element, i128)>>)
    requires
        composition.wf(),
    ensures
        r is None <==> ratio_key(*composition) is None,
        r matches Some(out) ==> ratio_key(*composition) == Some(key_view(out@)),
{
    if composition.len() <= 1 {
        return None;
    }
    let pairs = composition.pairs();
    let ghost v = listing_amounts(pairs@);
    proof {
        lemma_listing_amounts(*composition);
    }
    let n = pairs.len();
    let mut lcm: i128 = 1;
    let mut i: usize = 0;
    while i < n
        invariant
            i <= n,
            n == pairs@.len(),
            n > 1,
            pairs@ == composition.listing(),
            v == listing_amounts(pairs@),
            nonneg_canonical(v),
            forall|k: int| 0 <= k < n ==> #[trigger] v[k].0 > 0,
            den_lcm(v, i as int) == Some(lcm as int),
        decreases n - i,
    {
        proof {
            lemma_den_lcm(v, i as int);
        }
        let f = pairs[i].1;
        assert(v[i as int] == f@);
        match checked_lcm(lcm, f.denominator()) {
            None => {
                proof {
                    assert(den_lcm(v, i + 1) is None);
                    lemma_den_lcm_stays_none(v, i + 1, n as int);
                }
                return None;
            },
            Some(next) => {
                lcm = next;
            },
        }
        i = i + 1;
    }
    proof {
        lemma_den_lcm(v, n as int);
    }
    let ghost l = lcm as int;
    let ghost ns = scaled_ints(v, l);
    let mut ints: Vec<i128> = Vec::new();
    let mut i: usize = 0;
    while i < n
        invariant
            i <= n,
            n == pairs@.len(),
            n > 1,
            pairs@ == composition.listing(),
            v == listing_amounts(pairs@),
            nonneg_canonical(v),
            forall|k: int| 0 <= k < n ==> #[trigger] v[k].0 > 0,
            l == lcm,
            l > 0,
            den_lcm(v, n as int) == Some(l),
            ns == scaled_ints(v, l),
            forall|k: int| 0 <= k < n ==> #[trigger] (l % v[k].1) == 0,
            ints@.len() == i,
            forall|k: int| 0 <= k < i ==> #[trigger] ints@[k] as int == ns[k] && ns[k] > 0,
        decreases n - i,
    {
        let f = pairs[i].1;
        assert(v[i as int] == f@);
        let d = f.denominator();
        let factor = lcm / d;
        let num = match f.numerator().checked_mul(factor) {
            Some(x) => x,
            None => {
                proof {
                    assert(!fits_i128(ns[i as int]));
                }
                return None;
            },
        };
        proof {
            lemma_fundamental_div_mod(l, d as int);
            assert(l / (d as int) > 0) by (nonlinear_arith)
                requires l == (d as int) * (l / (d as int)) + l % (d as int), l % (d as int) == 0, l > 0, d > 0;
            assert(num > 0) by (nonlinear_arith)
                requires num == f@.0 * (l / (d as int)), f@.0 > 0, l / (d as int) > 0;
        }
        ints.push(num);
        i = i + 1;
    }
    let mut g: u128 = 0;
    let mut i: usize = 0;
    while i < n
        invariant
            i <= n,
            n == ints@.len(),
            ns.len() == n,
            forall|k: int| 0 <= k < n ==> #[trigger] ints@[k] as int == ns[k] && ns[k] > 0,
            g as nat == seq_gcd(abs_nats(ns).take(i as int)),
        decreases n - i,
    {
        let x = ints[i];
        let ghost s0 = abs_nats(ns).take(i as int);
        let ghost s1 = abs_nats(ns).take(i + 1);
        proof {
            assert(s1.drop_last() =~= s0);
            assert(s1.last() == ns[i as int]);
        }
        g = gcd_u128(g, x as u128);
        i = i + 1;
    }
    proof {
        assert(abs_nats(ns).take(n as int) =~= abs_nats(ns));
        lemma_seq_gcd_divides(abs_nats(ns));
        assert(ints@[0] as int == ns[0]);
        assert(abs_nats(ns)[0] == ns[0]);
        lemma_divisor_le(g as nat, abs_nats(ns)[0]);
    }
    let divisor: i128 = if g > 1 { g as i128 } else { 1 };
    let ghost cd = common_divisor(ns);
    assert(divisor as int == cd);
    let mut out: Vec<(Element, i128)> = Vec::new();
    let mut i: usize = 0;
    while i < n
        invariant
            i <= n,
            n == ints@.len(),
            n == pairs@.len(),
            ns.len() == n,
            forall|k: int| 0 <= k < n ==> #[trigger] ints@[k] as int == ns[k] && ns[k] > 0,
            divisor as int == cd,
            cd >= 1,
            cd == common_divisor(ns),
            out@.len() == i,
            forall|k: int|
                0 <= k < i ==> (#[trigger] out@[k]).0 == pairs@[k].0 && out@[k].1 as int == ns[k] / cd,
        decreases n - i,
    {
        let x = ints[i];
        out.push((pairs[i].0, x / divisor));
        i = i + 1;
    }
    proof {
        assert forall|k: int| 0 <= k < v.len() implies fits_i128(#[trigger] scaled_ints(v, l)[k]) by {
            assert(ints@[k] as int == ns[k]);
        }
        let key = ratio_key_values(v)->Some_0;
        assert(key == reduced_ints(v, l));
        assert(key_view(out@) =~= Seq::new(pairs@.len(), |k: int| (pairs@[k].0, key[k])));
    }
    Some(out)
}

/// Positive integer vectors with gcd 1 that are proportional are equal.
proof fn lemma_primitive_proportional_equal(x: Seq<int>, y: Seq<int>, p: int, q: int)
    requires
        x.len() == y.len(),
        x.len() > 0,
        p > 0,
        q > 0,
        forall|i: int| 0 <= i < x.len() ==> #[trigger] x[i] > 0 && y[i] > 0 && x[i] * p == y[i] * q,
        seq_gcd(abs_nats(x)) == 1,
        seq_gcd(abs_nats(y)) == 1,
    ensures
        x == y,
{
    let s = Seq::new(x.len(), |i: int| (p * x[i]) as nat);
    assert forall|i: int| 0 <= i < s.len() implies #[trigger] s[i] == (p as nat) * abs_nats(x)[i] by {
        assert(x[i] > 0);
        assert(abs_nats(x)[i] == x[i]);
        assert(p * x[i] > 0) by (nonlinear_arith)
            requires x[i] > 0, p > 0;
    }
    lemma_seq_gcd_scale(s, abs_nats(x), p as nat);
    assert forall|i: int| 0 <= i < s.len() implies #[trigger] s[i] == (q as nat) * abs_nats(y)[i] by {
        assert(x[i] > 0 && y[i] > 0);
        assert(abs_nats(y)[i] == y[i]);
        assert(p * x[i] == q * y[i]) by (nonlinear_arith)
            requires x[i] * p == y[i] * q;
        assert(q * y[i] > 0) by (nonlinear_arith)
            requires y[i] > 0, q > 0;
    }
    lemma_seq_gcd_scale(s, abs_nats(y), q as nat);
    assert(p == q);
    assert forall|i: int| 0 <= i < x.len() implies x[i] == y[i] by {
        assert(x[i] * p == y[i] * p);
        vstd::arithmetic::mul::lemma_mul_equality_converse(p, x[i], y[i]);
    }
    assert(x =~= y);
}

/// The key of positive amounts is proportional to them, positive, and has
/// gcd 1.
proof fn lemma_ratio_key_values(v: Seq<Q>)
    requires
        v.len() > 0,
        nonneg_canonical(v),
        forall|i: int| 0 <= i < v.len() ==> #[trigger] v[i].0 > 0,
        ratio_key_values(v) is Some,
    ensures
        ({
            let out = ratio_key_values(v)->Some_0;
            let l = den_lcm(v, v.len() as int)->Some_0;
            let cd = common_divisor(scaled_ints(v, l));
            &&& out.len() == v.len()
            &&& l > 0
            &&& cd > 0
            &&& forall|i: int|
                0 <= i < v.len() ==> #[trigger] out[i] > 0 && out[i] * v[i].1 * cd == v[i].0 * l
            &&& seq_gcd(abs_nats(out)) == 1
        }),
{
    let l = den_lcm(v, v.len() as int)->Some_0;
    lemma_reduced_ints(v, l);
    let out = reduced_ints(v, l);
    let cd = common_divisor(scaled_ints(v, l));
    assert forall|i: int| 0 <= i < v.len() implies #[trigger] out[i] > 0 && out[i] * v[i].1 * cd
        == v[i].0 * l by {
        assert(same_value((out[i], 1int), mul_pair(v[i], (l, cd))));
        assert(out[i] * (v[i].1 * cd) == (v[i].0 * l) * 1);
        assert(out[i] * v[i].1 * cd == v[i].0 * l) by (nonlinear_arith)
            requires out[i] * (v[i].1 * cd) == (v[i].0 * l) * 1;
        assert(is_canonical(v[i]));
        assert(out[i] != 0) by {
            if out[i] == 0 {
                assert(v[i].0 * l == 0) by (nonlinear_arith)
                    requires out[i] * v[i].1 * cd == v[i].0 * l, out[i] == 0;
                assert(v[i].0 * l > 0) by (nonlinear_arith)
                    requires v[i].0 > 0, l > 0;
            }
        }
    }
    assert(out[0] != 0);
}

/// Scaling every amount of a composition by one positive factor leaves its
/// canonical ratio key unchanged: `Fe2O3` and `Fe4O6` share a key, and so
/// do `La0.5Sr0.5MnO3` and `La1Sr1Mn2O6`.
/// Regrouping a product of six factors.
proof fn lemma_regroup_six(y: int, a: int, b: int, c: int, v: int, w: int)
    ensures
        (y * (a * b * c)) * (v * w) == (y * w * b) * (a * c * v),
{
    assert((y * (a * b * c)) * (v * w) == (y * w * b) * (a * c * v)) by (nonlinear_arith);
}

#[verifier::rlimit(40)]
pub proof fn lemma_ratio_key_scale_invariant(a: Composition, b: Composition, k: Q)
    requires
        a.wf(),
        b.wf(),
        k.0 > 0,
        k.1 > 0,
        a@.dom() == b@.dom(),
        forall|e: Element| #[trigger] a@.contains_key(e) ==> same_value(b@[e]@, mul_pair(a@[e]@, k)),
        ratio_key(a) is Some,
        ratio_key(b) is Some,
    ensures
        ratio_key(a) == ratio_key(b),
{
    Composition::lemma_listing_determined(a, b);
    Composition::lemma_listing_determined(b, a);
    lemma_listing_amounts(a);
    lemma_listing_amounts(b);
    a.lemma_wf();
    b.lemma_wf();
    let s = a.listing();
    let t = b.listing();
    let v = listing_amounts(s);
    let w = listing_amounts(t);
    lemma_ratio_key_values(v);
    lemma_ratio_key_values(w);
    let ov = ratio_key_values(v)->Some_0;
    let ow = ratio_key_values(w)->Some_0;
    let lv = den_lcm(v, v.len() as int)->Some_0;
    let lw = den_lcm(w, w.len() as int)->Some_0;
    let cdv = common_divisor(scaled_ints(v, lv));
    let cdw = common_divisor(scaled_ints(w, lw));
    let p = k.0 * lw * cdv;
    let q = k.1 * cdw * lv;
    assert(p > 0 && q > 0) by (nonlinear_arith)
        requires k.0 > 0, k.1 > 0, lw > 0, lv > 0, cdv > 0, cdw > 0, p == k.0 * lw * cdv, q == k.1 * cdw * lv;
    assert forall|i: int| 0 <= i < ov.len() implies #[trigger] ov[i] > 0 && ow[i] > 0 && ov[i] * p
        == ow[i] * q by {
        let e = s[i].0;
        assert(t[i].0 == e);
        assert(a@.contains_key(e));
        assert(a@[e] == s[i].1);
        assert(b@[e] == t[i].1);
        let (v0, v1) = v[i];
        let (w0, w1) = w[i];
        assert(v[i] == s[i].1@ && w[i] == t[i].1@);
        assert(same_value(w[i], mul_pair(v[i], k)));
        assert(w0 * (v1 * k.1) == (v0 * k.0) * w1);
        let x = ov[i];
        let y = ow[i];
        assert(x * v1 * cdv == v0 * lv);
        assert(y * w1 * cdw == w0 * lw);
        assert(v1 > 0 && w1 > 0);
        let a1 = x * v1 * cdv;
        let b1 = y * w1 * cdw;
        let c1 = w0 * v1 * k.1;
        assert(c1 == v0 * k.0 * w1) by (nonlinear_arith)
            requires c1 == w0 * v1 * k.1, w0 * (v1 * k.1) == (v0 * k.0) * w1;
        assert((x * (k.0 * lw * cdv)) * (v1 * w1) == (x * v1 * cdv) * (k.0 * lw * w1))
            by (nonlinear_arith);
        lemma_regroup_six(y, k.1, cdw, lv, v1, w1);
        assert((w0 * lw) * (k.1 * lv * v1) == (w0 * v1 * k.1) * (lw * lv)) by (nonlinear_arith);
        assert((v0 * lv) * (k.0 * lw * w1) == (v0 * k.0 * w1) * (lw * lv)) by (nonlinear_arith);
        assert((x * p) * (v1 * w1) == a1 * (k.0 * lw * w1));
        assert((y * q) * (v1 * w1) == b1 * (k.1 * lv * v1));
        assert((w0 * lw) * (k.1 * lv * v1) == c1 * (lw * lv));
        assert((x * p) * (v1 * w1) == (y * q) * (v1 * w1));
        assert(v1 * w1 > 0) by (nonlinear_arith)
            requires v1 > 0, w1 > 0;
        vstd::arithmetic::mul::lemma_mul_is_commutative(x * p, v1 * w1);
        vstd::arithmetic::mul::lemma_mul_is_commutative(y * q, v1 * w1);
        vstd::arithmetic::mul::lemma_mul_equality_converse(v1 * w1, x * p, y * q);
    }
    lemma_primitive_proportional_equal(ov, ow, p, q);
    assert(ratio_key(a)->Some_0 =~= ratio_key(b)->Some_0);
}

/// One amount relation: equal keys with scale factors make the amounts
/// proportional.
proof fn lemma_proportional_entry(kk: int, xa: Q, xb: Q, la: int, ca: int, lb: int, cb: int)
    requires
        kk * xa.1 * ca == xa.0 * la,
        kk * xb.1 * cb == xb.0 * lb,
    ensures
        xb.0 * (xa.1 * (lb * ca)) == (xa.0 * (cb * la)) * xb.1,
{
    assert(xb.0 * (xa.1 * (lb * ca)) == (xb.0 * lb) * (xa.1 * ca)) by (nonlinear_arith);
    assert((xa.0 * (cb * la)) * xb.1 == (xa.0 * la) * (xb.1 * cb)) by (nonlinear_arith);
    assert((kk * xb.1 * cb) * (xa.1 * ca) == (kk * xa.1 * ca) * (xb.1 * cb)) by (nonlinear_arith);
}

/// Equal ratio keys list the same elements in the same order, with the
/// same reduced amounts.
proof fn lemma_keys_align(a: Composition, b: Composition)
    requires
        ratio_key(a) is Some,
        ratio_key(a) == ratio_key(b),
    ensures
        a.listing().len() == b.listing().len(),
        ratio_key_values(listing_amounts(a.listing())) is Some,
        ratio_key_values(listing_amounts(b.listing())) is Some,
        forall|i: int|
            0 <= i < a.listing().len() ==> #[trigger] a.listing()[i].0 == b.listing()[i].0 && ratio_key_values(
                listing_amounts(a.listing()),
            )->Some_0[i] == ratio_key_values(listing_amounts(b.listing()))->Some_0[i],
{
    let sa = a.listing();
    let sb = b.listing();
    let key = ratio_key(a)->Some_0;
    let ka = ratio_key_values(listing_amounts(sa))->Some_0;
    let kb = ratio_key_values(listing_amounts(sb))->Some_0;
    assert(ratio_key(b) is Some);
    assert(sb.len() > 1);
    assert(ratio_key_values(listing_amounts(sb)) is Some);
    assert(key == Seq::new(sa.len(), |i: int| (sa[i].0, ka[i])));
    assert(key == Seq::new(sb.len(), |i: int| (sb[i].0, kb[i])));
    assert(key.len() == sa.len() && key.len() == sb.len());
    assert forall|i: int| 0 <= i < sa.len() implies #[trigger] sa[i].0 == sb[i].0 && ka[i] == kb[i] by {
        assert(key[i] == (sa[i].0, ka[i]));
        assert(key[i] == (sb[i].0, kb[i]));
    }
}

/// Compositions whose listings name the same elements in the same order
/// hold the same elements.
proof fn lemma_aligned_dom(a: Composition, b: Composition)
    requires
        a.wf(),
        b.wf(),
        a.listing().len() == b.listing().len(),
        forall|i: int| 0 <= i < a.listing().len() ==> #[trigger] a.listing()[i].0 == b.listing()[i].0,
    ensures
        a@.dom() == b@.dom(),
{
    a.lemma_wf();
    b.lemma_wf();
    let sa = a.listing();
    let sb = b.listing();
    assert forall|e: Element| #[trigger] a@.dom().contains(e) <==> b@.dom().contains(e) by {
        if a@.contains_key(e) {
            let i = choose|i: int| 0 <= i < sa.len() && sa[i].0 == e;
            assert(sb[i].0 == e);
        }
        if b@.contains_key(e) {
            let i = choose|i: int| 0 <= i < sb.len() && sb[i].0 == e;
            assert(sa[i].0 == e);
        }
    }
    assert(a@.dom() =~= b@.dom());
}

/// An element of aligned compositions sits at one position of both
/// listings.
proof fn lemma_aligned_entry(a: Composition, b: Composition, e: Element) -> (i: int)
    requires
        a.wf(),
        b.wf(),
        a.listing().len() == b.listing().len(),
        forall|i: int| 0 <= i < a.listing().len() ==> #[trigger] a.listing()[i].0 == b.listing()[i].0,
        a@.contains_key(e),
    ensures
        0 <= i < a.listing().len(),
        a@[e] == a.listing()[i].1,
        b@[e] == b.listing()[i].1,
{
    a.lemma_wf();
    b.lemma_wf();
    let sa = a.listing();
    let sb = b.listing();
    let i = choose|i: int| 0 <= i < sa.len() && sa[i].0 == e;
    assert(sb[i].0 == e);
    crate::composition::lemma_listing_lookup(sa, i);
    crate::composition::lemma_listing_lookup(sb, i);
    i
}

/// Matching by ratio is sound: two compositions with the same canonical
/// ratio key hold the same elements, and the amounts of one are those of
/// the other scaled by a single positive factor.
pub proof fn lemma_ratio_key_sound(a: Composition, b: Composition)
    requires
        a.wf(),
        b.wf(),
        ratio_key(a) is Some,
        ratio_key(a) == ratio_key(b),
    ensures
        a@.dom() == b@.dom(),
        exists|k: Q|
            k.0 > 0 && k.1 > 0 && forall|e: Element| #[trigger] a@.contains_key(e) ==> same_value(
                b@[e]@,
                mul_pair(a@[e]@, k),
            ),
{
    let sa = a.listing();
    let sb = b.listing();
    let va = listing_amounts(sa);
    let vb = listing_amounts(sb);
    lemma_keys_align(a, b);
    lemma_aligned_dom(a, b);
    lemma_listing_amounts(a);
    lemma_listing_amounts(b);
    lemma_ratio_key_values(va);
    lemma_ratio_key_values(vb);
    let ka = ratio_key_values(va)->Some_0;
    let la = den_lcm(va, va.len() as int)->Some_0;
    let lb = den_lcm(vb, vb.len() as int)->Some_0;
    let ca = common_divisor(scaled_ints(va, la));
    let cb = common_divisor(scaled_ints(vb, lb));
    let k: Q = (cb * la, lb * ca);
    assert(k.0 > 0 && k.1 > 0) by (nonlinear_arith)
        requires k == (cb * la, lb * ca), cb > 0, la > 0, lb > 0, ca > 0;
    assert forall|e: Element| #[trigger] a@.contains_key(e) implies same_value(b@[e]@, mul_pair(a@[e]@, k)) by {
        let i = lemma_aligned_entry(a, b, e);
        assert(va[i] == sa[i].1@);
        assert(vb[i] == sb[i].1@);
        let kb = ratio_key_values(vb)->Some_0;
        assert(sa[i].0 == sb[i].0);
        assert(kb[i] == ka[i]);
        assert(ka[i] * va[i].1 * ca == va[i].0 * la);
        assert(kb[i] * vb[i].1 * cb == vb[i].0 * lb);
        lemma_proportional_entry(ka[i], va[i], vb[i], la, ca, lb, cb);
    }
}

/// Whether an offer matches a target composition: the same composition,
/// or, when the target has a canonical key, the same canonical key.
pub open spec fn offer_matches(o: CommercialPrecursorOffer, target: Composition) -> bool {
    o.composition.listing() == target.listing() || (ratio_key(target) is Some && ratio_key(
        o.composition,
    ) == ratio_key(target))
}

/// The offers that match `target`, in catalog order.
pub open spec fn matching_offers(s: Seq<CommercialPrecursorOffer>, target: Composition) -> Seq<CommercialPrecursorOffer>
    decreases s.len(),
{
    if s.len() == 0 {
        Seq::empty()
    } else {
        let prev = matching_offers(s.drop_last(), target);
        if offer_matches(s.last(), target) {
            prev.push(s.last())
        } else {
            prev
        }
    }
}

/// The offers matching a target are exactly the catalog's offers that
/// match it.
pub proof fn lemma_matching_offers_members(s: Seq<CommercialPrecursorOffer>, target: Composition)
    ensures
        forall|o: CommercialPrecursorOffer|
            #[trigger] matching_offers(s, target).contains(o) <==> (s.contains(o) && offer_matches(o, target)),
    decreases s.len(),
{
    if s.len() > 0 {
        let t = s.drop_last();
        lemma_matching_offers_members(t, target);
        assert forall|o: CommercialPrecursorOffer|
            #[trigger] matching_offers(s, target).contains(o) <==> (s.contains(o) && offer_matches(o, target)) by {
            let mt = matching_offers(t, target);
            let ms = matching_offers(s, target);
            if mt.contains(o) {
                let j = choose|j: int| 0 <= j < mt.len() && mt[j] == o;
                assert(ms[j] == o);
                let i = choose|i: int| 0 <= i < t.len() && t[i] == o;
                assert(s[i] == o);
            }
            if s.contains(o) && offer_matches(o, target) {
                let i = choose|i: int| 0 <= i < s.len() && s[i] == o;
                if i < t.len() {
                    assert(t[i] == o);
                    assert(t.contains(o));
                } else {
                    assert(ms[ms.len() - 1] == o);
                }
            }
            if ms.contains(o) && !mt.contains(o) {
                let j = choose|j: int| 0 <= j < ms.len() && ms[j] == o;
                if j < mt.len() {
                    assert(ms[j] == mt[j]);
                }
                assert(s[s.len() - 1] == o);
            }
        }
    }
}

/// Whether two computed keys are equal.
fn keys_equal(a: &Vec<(Element, i128)>, b: &Vec<(Element, i128)>) -> (r: bool)
    ensures
        r == (key_view(a@) == key_view(b@)),
{
    if a.len() != b.len() {
        assert(key_view(a@).len() != key_view(b@).len());
        return false;
    }
    let mut i: usize = 0;
    while i < a.len()
        invariant
            i <= a@.len(),
            a@.len() == b@.len(),
            forall|j: int| 0 <= j < i ==> #[trigger] key_view(a@)[j] == key_view(b@)[j],
        decreases a@.len() - i,
    {
        let (ea, na) = a[i];
        let (eb, nb) = b[i];
        if ea.index_u8() != eb.index_u8() || na != nb {
            assert(key_view(a@)[i as int] != key_view(b@)[i as int]);
            return false;
        }
        proof {
            Element::lemma_index_injective(ea, eb);
        }
        i = i + 1;
    }
    assert(key_view(a@) =~= key_view(b@));
    true
}

impl CommercialPrecursorCatalog {
    /// The offers matching `composition`, in catalog order: those with the
    /// same composition and, when the target has a canonical ratio key,
    /// those with the same key (`Fe4O6` matches `Fe2O3`). The target's key
    /// is computed once.
    pub fn offers_matching<'a>(&'a self, composition: &Composition) -> (r: Vec<&'a CommercialPrecursorOffer>)
        requires
            composition.wf(),
        ensures
            r@.len() == matching_offers(self@, *composition).len(),
            forall|i: int| 0 <= i < r@.len() ==> *r@[i] == matching_offers(self@, *composition)[i],
    {
        let offers = self.offers();
        let target_key = canonical_ratio_key(composition);
        let mut out: Vec<&'a CommercialPrecursorOffer> = Vec::new();
        let mut i: usize = 0;
        while i < offers.len()
            invariant
                i <= offers@.len(),
                offers@ == self@,
                compositions_wf(offers@),
                composition.wf(),
                target_key is None <==> ratio_key(*composition) is None,
                target_key matches Some(t) ==> ratio_key(*composition) == Some(key_view(t@)),
                out@.len() == matching_offers(offers@.take(i as int), *composition).len(),
                forall|j: int| 0 <= j < out@.len() ==> *out@[j] == matching_offers(
                    offers@.take(i as int),
                    *composition,
                )[j],
            decreases offers@.len() - i,
        {
            let o = &offers[i];
            assert(o.composition.wf());
            let matched = if o.composition.same_as(composition) {
                true
            } else {
                match &target_key {
                    None => false,
                    Some(t) => match canonical_ratio_key(&o.composition) {
                        None => false,
                        Some(k) => keys_equal(&k, t),
                    },
                }
            };
            proof {
                assert(offers@.take(i + 1).drop_last() =~= offers@.take(i as int));
                assert(offers@.take(i + 1).last() == offers@[i as int]);
            }
            if matched {
                out.push(o);
            }
            i = i + 1;
        }
        assert(offers@.take(offers@.len() as int) =~= offers@);
        out
    }
}

} // verus!
