//! Rational linear algebra as specification: numerator/denominator pairs,
//! their arithmetic up to equality of value, and dot products over
//! sequences of them. Used to state and prove what exact elimination
//! preserves.

use crate::frac::{add_pair, mul_pair, same_value};
use vstd::arithmetic::mul::*;
use vstd::prelude::*;

verus! {

/// A rational as a numerator/denominator pair.
pub type Q = (int, int);

pub open spec fn qzero() -> Q {
    (0, 1)
}

pub open spec fn qneg(a: Q) -> Q {
    (-a.0, a.1)
}

/// `a - f * p`.
pub open spec fn qsub_mul(a: Q, f: Q, p: Q) -> Q {
    add_pair(a, qneg(mul_pair(f, p)))
}

/// All denominators of the first `n` entries are positive.
pub open spec fn dens_pos(a: Seq<Q>, n: int) -> bool {
    forall|i: int| 0 <= i < n ==> (#[trigger] a[i]).1 > 0
}

/// `sum_{i < n} a[i] * b[i]`.
pub open spec fn dot(a: Seq<Q>, b: Seq<Q>, n: int) -> Q
    decreases n,
{
    if n <= 0 {
        qzero()
    } else {
        add_pair(dot(a, b, n - 1), mul_pair(a[n - 1], b[n - 1]))
    }
}

pub proof fn lemma_same_value_trans(a: Q, b: Q, c: Q)
    requires
        same_value(a, b),
        same_value(b, c),
        b.1 != 0,
    ensures
        same_value(a, c),
{
    assert((a.0 * c.1 - c.0 * a.1) * b.1 == 0) by (nonlinear_arith)
        requires
            a.0 * b.1 == b.0 * a.1,
            b.0 * c.1 == c.0 * b.1,
    ;
    assert(a.0 * c.1 - c.0 * a.1 == 0) by (nonlinear_arith)
        requires
            (a.0 * c.1 - c.0 * a.1) * b.1 == 0,
            b.1 != 0,
    ;
}

/// `(p q)(r s) = (p r)(q s)`.
pub proof fn lemma_mul4(p: int, q: int, r: int, s: int)
    ensures
        (p * q) * (r * s) == (p * r) * (q * s),
{
    assert((p * q) * (r * s) == (p * r) * (q * s)) by (nonlinear_arith);
}

pub proof fn lemma_add_congr(a: Q, a2: Q, b: Q, b2: Q)
    requires
        same_value(a, a2),
        same_value(b, b2),
    ensures
        same_value(add_pair(a, b), add_pair(a2, b2)),
{
    let (a0, a1, a20, a21) = (a.0, a.1, a2.0, a2.1);
    let (b0, b1, b20, b21) = (b.0, b.1, b2.0, b2.1);
    lemma_mul_is_distributive_add_other_way(a21 * b21, a0 * b1, b0 * a1);
    lemma_mul_is_distributive_add_other_way(a1 * b1, a20 * b21, b20 * a21);
    lemma_mul4(a0, b1, a21, b21);  // (a0 b1)(a21 b21) = (a0 a21)(b1 b21)
    lemma_mul4(a20, b21, a1, b1);  // (a20 b21)(a1 b1) = (a20 a1)(b21 b1)
    lemma_mul_is_commutative(b21, b1);
    lemma_mul4(b0, a1, b21, a21);  // (b0 a1)(b21 a21) = (b0 b21)(a1 a21)
    lemma_mul_is_commutative(a21, b21);
    lemma_mul4(b20, a21, b1, a1);  // (b20 a21)(b1 a1) = (b20 b1)(a21 a1)
    lemma_mul_is_commutative(b1, a1);
    lemma_mul_is_commutative(a21, a1);
}

pub proof fn lemma_mul_congr(a: Q, a2: Q, b: Q, b2: Q)
    requires
        same_value(a, a2),
        same_value(b, b2),
    ensures
        same_value(mul_pair(a, b), mul_pair(a2, b2)),
{
    let (a0, a1, a20, a21) = (a.0, a.1, a2.0, a2.1);
    let (b0, b1, b20, b21) = (b.0, b.1, b2.0, b2.1);
    assert((a0 * b0) * (a21 * b21) == (a0 * a21) * (b0 * b21)) by (nonlinear_arith);
    assert((a20 * b20) * (a1 * b1) == (a20 * a1) * (b20 * b1)) by (nonlinear_arith);
}

/// `(k * n, k * d)` has the value of `(n, d)`.
pub proof fn lemma_scaled_same(a: Q, k: int)
    ensures
        same_value((k * a.0, k * a.1), a),
{
    assert((k * a.0) * a.1 == a.0 * (k * a.1)) by (nonlinear_arith);
}

pub proof fn lemma_dot_den_pos(a: Seq<Q>, b: Seq<Q>, n: int)
    requires
        dens_pos(a, n),
        dens_pos(b, n),
    ensures
        dot(a, b, n).1 > 0,
    decreases n,
{
    if n > 0 {
        lemma_dot_den_pos(a, b, n - 1);
        let d = dot(a, b, n - 1).1;
        let x = a[n - 1].1;
        let y = b[n - 1].1;
        assert(d * (x * y) > 0) by (nonlinear_arith)
            requires d > 0, x > 0, y > 0;
    }
}

/// Entrywise equal-valued first arguments give equal-valued dot products.
pub proof fn lemma_dot_congr(a: Seq<Q>, a2: Seq<Q>, b: Seq<Q>, n: int)
    requires
        forall|i: int| 0 <= i < n ==> same_value(#[trigger] a[i], a2[i]),
    ensures
        same_value(dot(a, b, n), dot(a2, b, n)),
    decreases n,
{
    if n > 0 {
        lemma_dot_congr(a, a2, b, n - 1);
        lemma_mul_congr(a[n - 1], a2[n - 1], b[n - 1], b[n - 1]);
        lemma_add_congr(
            dot(a, b, n - 1),
            dot(a2, b, n - 1),
            mul_pair(a[n - 1], b[n - 1]),
            mul_pair(a2[n - 1], b[n - 1]),
        );
    }
}

/// The dot product is symmetric.
pub proof fn lemma_dot_comm(a: Seq<Q>, b: Seq<Q>, n: int)
    ensures
        dot(a, b, n) == dot(b, a, n),
    decreases n,
{
    if n > 0 {
        lemma_dot_comm(a, b, n - 1);
        assert(mul_pair(a[n - 1], b[n - 1]) == mul_pair(b[n - 1], a[n - 1])) by (nonlinear_arith);
    }
}

/// Scaling every entry of the first argument by `c` scales the dot product
/// by `c`.
pub proof fn lemma_dot_scale(a: Seq<Q>, s: Seq<Q>, c: Q, b: Seq<Q>, n: int)
    requires
        forall|i: int| 0 <= i < n ==> same_value(#[trigger] s[i], mul_pair(a[i], c)),
        dens_pos(a, n),
        dens_pos(s, n),
        dens_pos(b, n),
        c.1 > 0,
    ensures
        same_value(dot(s, b, n), mul_pair(dot(a, b, n), c)),
    decreases n,
{
    if n > 0 {
        lemma_dot_scale(a, s, c, b, n - 1);
        let d = dot(a, b, n - 1);
        let ds = dot(s, b, n - 1);
        let x = a[n - 1];
        let y = b[n - 1];
        let z = s[n - 1];
        lemma_dot_den_pos(a, b, n - 1);
        lemma_dot_den_pos(s, b, n - 1);
        // ds + z*y  ~  d*c + (x*c)*y  ~  (d + x*y) * c
        lemma_mul_congr(z, mul_pair(x, c), y, y);
        lemma_add_congr(ds, mul_pair(d, c), mul_pair(z, y), mul_pair(mul_pair(x, c), y));
        let lhs = add_pair(mul_pair(d, c), mul_pair(mul_pair(x, c), y));
        let rhs = mul_pair(add_pair(d, mul_pair(x, y)), c);
        assert((d.0 * c.0) * ((x.1 * c.1) * y.1) == c.1 * ((d.0 * (x.1 * y.1)) * c.0))
            by (nonlinear_arith);
        assert(((x.0 * c.0) * y.0) * (d.1 * c.1) == c.1 * (((x.0 * y.0) * d.1) * c.0))
            by (nonlinear_arith);
        lemma_mul_is_distributive_add_other_way(c.0, d.0 * (x.1 * y.1), (x.0 * y.0) * d.1);
        lemma_mul_is_distributive_add(
            c.1,
            (d.0 * (x.1 * y.1)) * c.0,
            ((x.0 * y.0) * d.1) * c.0,
        );
        assert(lhs.0 == c.1 * rhs.0);
        assert(lhs.1 == c.1 * rhs.1) by (nonlinear_arith)
            requires
                lhs.1 == (d.1 * c.1) * ((x.1 * c.1) * y.1),
                rhs.1 == (d.1 * (x.1 * y.1)) * c.1;
        lemma_scaled_same(rhs, c.1);
        assert(lhs == (c.1 * rhs.0, c.1 * rhs.1));
        assert(d.1 * c.1 > 0 && (x.1 * c.1) * y.1 > 0) by (nonlinear_arith)
            requires d.1 > 0, c.1 > 0, x.1 > 0, y.1 > 0;
        assert(lhs.1 != 0) by (nonlinear_arith)
            requires lhs.1 == (d.1 * c.1) * ((x.1 * c.1) * y.1), d.1 * c.1 > 0, (x.1 * c.1) * y.1 > 0;
        lemma_same_value_trans(
            add_pair(ds, mul_pair(z, y)),
            add_pair(mul_pair(d, c), mul_pair(mul_pair(x, c), y)),
            mul_pair(add_pair(d, mul_pair(x, y)), c),
        );
        assert(same_value(ds, mul_pair(d, c)));
        assert(same_value(add_pair(ds, mul_pair(z, y)), lhs));
        assert(same_value(lhs, rhs));
        assert(dot(s, b, n) == add_pair(ds, mul_pair(z, y)));
        assert(mul_pair(dot(a, b, n), c) == rhs);
        assert(same_value(dot(s, b, n), mul_pair(dot(a, b, n), c)));
    } else {
        assert(0 * c.0 == 0 && 1 * c.1 == c.1) by (nonlinear_arith);
        assert(same_value(dot(s, b, n), mul_pair(dot(a, b, n), c)));
    }
}

pub proof fn lemma_add_comm(a: Q, b: Q)
    ensures
        add_pair(a, b) == add_pair(b, a),
{
    lemma_mul_is_commutative(a.1, b.1);
}

pub proof fn lemma_add_assoc(a: Q, b: Q, c: Q)
    ensures
        add_pair(add_pair(a, b), c) == add_pair(a, add_pair(b, c)),
{
    let (a0, a1, b0, b1, c0, c1) = (a.0, a.1, b.0, b.1, c.0, c.1);
    lemma_mul_is_distributive_add_other_way(c1, a0 * b1, b0 * a1);
    lemma_mul_is_distributive_add_other_way(a1, b0 * c1, c0 * b1);
    lemma_mul_is_associative(a0, b1, c1);
    lemma_mul_is_associative(b0, a1, c1);
    lemma_mul_is_associative(b0, c1, a1);
    lemma_mul_is_commutative(a1, c1);
    lemma_mul_is_associative(c0, a1, b1);
    lemma_mul_is_associative(c0, b1, a1);
    lemma_mul_is_commutative(a1, b1);
    lemma_mul_is_associative(a1, b1, c1);
}

/// `(y + z) * w ~ y * w + z * w`.
pub proof fn lemma_mul_distrib(y: Q, z: Q, w: Q)
    ensures
        same_value(mul_pair(add_pair(y, z), w), add_pair(mul_pair(y, w), mul_pair(z, w))),
{
    let l = mul_pair(add_pair(y, z), w);
    let r = add_pair(mul_pair(y, w), mul_pair(z, w));
    assert((y.0 * w.0) * (z.1 * w.1) == w.1 * ((y.0 * z.1) * w.0)) by (nonlinear_arith);
    assert((z.0 * w.0) * (y.1 * w.1) == w.1 * ((z.0 * y.1) * w.0)) by (nonlinear_arith);
    lemma_mul_is_distributive_add_other_way(w.0, y.0 * z.1, z.0 * y.1);
    lemma_mul_is_distributive_add(w.1, (y.0 * z.1) * w.0, (z.0 * y.1) * w.0);
    assert((y.1 * w.1) * (z.1 * w.1) == w.1 * ((y.1 * z.1) * w.1)) by (nonlinear_arith);
    assert(r == (w.1 * l.0, w.1 * l.1));
    lemma_scaled_same(l, w.1);
}

/// `-(f * p) == p * (-f)`.
pub proof fn lemma_neg_mul(f: Q, p: Q)
    ensures
        qneg(mul_pair(f, p)) == mul_pair(p, qneg(f)),
{
    lemma_mul_is_commutative(p.0, -f.0);
    lemma_mul_unary_negation(f.0, p.0);
    lemma_mul_is_commutative(f.1, p.1);
}

/// Additivity of the dot product in its first argument.
pub proof fn lemma_dot_add(s: Seq<Q>, r: Seq<Q>, t: Seq<Q>, b: Seq<Q>, n: int)
    requires
        forall|i: int| 0 <= i < n ==> same_value(#[trigger] s[i], add_pair(r[i], t[i])),
        dens_pos(s, n),
        dens_pos(r, n),
        dens_pos(t, n),
        dens_pos(b, n),
    ensures
        same_value(dot(s, b, n), add_pair(dot(r, b, n), dot(t, b, n))),
    decreases n,
{
    if n > 0 {
        lemma_dot_add(s, r, t, b, n - 1);
        let ds = dot(s, b, n - 1);
        let dr = dot(r, b, n - 1);
        let dt = dot(t, b, n - 1);
        let x = s[n - 1];
        let y = r[n - 1];
        let z = t[n - 1];
        let w = b[n - 1];
        lemma_dot_den_pos(r, b, n - 1);
        lemma_dot_den_pos(t, b, n - 1);
        // ds + x w ~ (dr + dt) + (y + z) w ~ (dr + dt) + (y w + z w)
        lemma_mul_congr(x, add_pair(y, z), w, w);
        lemma_add_congr(ds, add_pair(dr, dt), mul_pair(x, w), mul_pair(add_pair(y, z), w));
        lemma_mul_distrib(y, z, w);
        lemma_add_congr(
            add_pair(dr, dt),
            add_pair(dr, dt),
            mul_pair(add_pair(y, z), w),
            add_pair(mul_pair(y, w), mul_pair(z, w)),
        );
        let yw = mul_pair(y, w);
        let zw = mul_pair(z, w);
        lemma_add_assoc(dr, dt, add_pair(yw, zw));
        lemma_add_assoc(dt, yw, zw);
        lemma_add_comm(dt, yw);
        lemma_add_assoc(yw, dt, zw);
        lemma_add_assoc(dr, yw, add_pair(dt, zw));
        assert(add_pair(add_pair(dr, dt), add_pair(yw, zw)) == add_pair(
            add_pair(dr, yw),
            add_pair(dt, zw),
        ));
        assert(add_pair(dr, dt).1 > 0 && add_pair(y, z).1 > 0) by (nonlinear_arith)
            requires dr.1 > 0, dt.1 > 0, y.1 > 0, z.1 > 0;
        assert(mul_pair(add_pair(y, z), w).1 > 0) by (nonlinear_arith)
            requires add_pair(y, z).1 > 0, w.1 > 0;
        assert(add_pair(add_pair(dr, dt), mul_pair(add_pair(y, z), w)).1 != 0) by (nonlinear_arith)
            requires add_pair(dr, dt).1 > 0, mul_pair(add_pair(y, z), w).1 > 0;
        lemma_same_value_trans(
            add_pair(ds, mul_pair(x, w)),
            add_pair(add_pair(dr, dt), mul_pair(add_pair(y, z), w)),
            add_pair(add_pair(dr, dt), add_pair(yw, zw)),
        );
        assert(same_value(dot(s, b, n), add_pair(dot(r, b, n), dot(t, b, n))));
    } else {
        assert(0 * 1 + 0 * 1 == 0 && 1 * 1 == 1) by (nonlinear_arith);
        assert(same_value(dot(s, b, n), add_pair(dot(r, b, n), dot(t, b, n))));
    }
}

/// One elimination step: if `s[i] ~ r[i] - f * p[i]` entrywise, then
/// `s . b ~ r . b - f * (p . b)`.
pub proof fn lemma_dot_elim(s: Seq<Q>, r: Seq<Q>, p: Seq<Q>, f: Q, b: Seq<Q>, n: int)
    requires
        forall|i: int| 0 <= i < n ==> same_value(#[trigger] s[i], qsub_mul(r[i], f, p[i])),
        dens_pos(s, n),
        dens_pos(r, n),
        dens_pos(p, n),
        dens_pos(b, n),
        f.1 > 0,
    ensures
        same_value(dot(s, b, n), qsub_mul(dot(r, b, n), f, dot(p, b, n))),
{
    let t = Seq::new(n as nat, |i: int| mul_pair(p[i], qneg(f)));
    assert forall|i: int| 0 <= i < n implies same_value(#[trigger] s[i], add_pair(r[i], t[i])) by {
        lemma_neg_mul(f, p[i]);
    }
    assert(dens_pos(t, n)) by {
        assert forall|i: int| 0 <= i < n implies (#[trigger] t[i]).1 > 0 by {
            assert(p[i].1 * f.1 > 0) by (nonlinear_arith)
                requires p[i].1 > 0, f.1 > 0;
        }
    }
    lemma_dot_add(s, r, t, b, n);
    assert forall|i: int| 0 <= i < n implies same_value(
        #[trigger] t[i],
        mul_pair(p[i], qneg(f)),
    ) by {}
    lemma_dot_scale(p, t, qneg(f), b, n);
    lemma_add_congr(
        dot(r, b, n),
        dot(r, b, n),
        dot(t, b, n),
        mul_pair(dot(p, b, n), qneg(f)),
    );
    lemma_neg_mul(f, dot(p, b, n));
    lemma_dot_den_pos(r, b, n);
    lemma_dot_den_pos(t, b, n);
    assert(add_pair(dot(r, b, n), dot(t, b, n)).1 != 0) by (nonlinear_arith)
        requires dot(r, b, n).1 > 0, dot(t, b, n).1 > 0;
    lemma_same_value_trans(
        dot(s, b, n),
        add_pair(dot(r, b, n), dot(t, b, n)),
        qsub_mul(dot(r, b, n), f, dot(p, b, n)),
    );
}

/// A dot product whose every term has a zero numerator is zero.
pub proof fn lemma_dot_zero_terms(a: Seq<Q>, b: Seq<Q>, n: int)
    requires
        forall|i: int| 0 <= i < n ==> (#[trigger] mul_pair(a[i], b[i])).0 == 0,
    ensures
        dot(a, b, n).0 == 0,
    decreases n,
{
    if n > 0 {
        lemma_dot_zero_terms(a, b, n - 1);
        let d = dot(a, b, n - 1);
        let t = mul_pair(a[n - 1], b[n - 1]);
        assert(d.0 * t.1 + t.0 * d.1 == 0) by (nonlinear_arith)
            requires d.0 == 0, t.0 == 0;
    }
}

/// The terms of a dot product at positions `p` and `f` only, in index order.
pub open spec fn two_part(a: Seq<Q>, b: Seq<Q>, n: int, p: int, f: int) -> Q
    decreases n,
{
    if n <= 0 {
        qzero()
    } else if n - 1 == p || n - 1 == f {
        add_pair(two_part(a, b, n - 1, p, f), mul_pair(a[n - 1], b[n - 1]))
    } else {
        two_part(a, b, n - 1, p, f)
    }
}

proof fn lemma_two_part_dot(a: Seq<Q>, b: Seq<Q>, n: int, p: int, f: int)
    requires
        dens_pos(a, n),
        dens_pos(b, n),
        forall|i: int|
            0 <= i < n && i != p && i != f ==> (#[trigger] mul_pair(a[i], b[i])).0 == 0,
    ensures
        same_value(dot(a, b, n), two_part(a, b, n, p, f)),
        two_part(a, b, n, p, f).1 > 0,
    decreases n,
{
    if n > 0 {
        lemma_two_part_dot(a, b, n - 1, p, f);
        let d = dot(a, b, n - 1);
        let q = two_part(a, b, n - 1, p, f);
        let t = mul_pair(a[n - 1], b[n - 1]);
        assert(t.1 > 0) by (nonlinear_arith)
            requires t.1 == a[n - 1].1 * b[n - 1].1, a[n - 1].1 > 0, b[n - 1].1 > 0;
        lemma_dot_den_pos(a, b, n - 1);
        if n - 1 == p || n - 1 == f {
            lemma_add_congr(d, q, t, t);
            assert(q.1 * t.1 > 0) by (nonlinear_arith)
                requires q.1 > 0, t.1 > 0;
        } else {
            assert(t.0 == 0);
            assert((d.0 * t.1 + t.0 * d.1) * d.1 == d.0 * (d.1 * t.1)) by (nonlinear_arith)
                requires t.0 == 0;
            assert(same_value(add_pair(d, t), d));
            lemma_same_value_trans(add_pair(d, t), d, q);
        }
    }
}

proof fn lemma_two_part_flat(a: Seq<Q>, b: Seq<Q>, n: int, m: int, p: int, f: int)
    requires
        m <= n,
        !(m <= p < n),
        !(m <= f < n),
    ensures
        two_part(a, b, n, p, f) == two_part(a, b, m, p, f),
    decreases n - m,
{
    if m < n {
        lemma_two_part_flat(a, b, n - 1, m, p, f);
    }
}

/// A dot product with only two possibly nonzero terms, at `p` and `f`,
/// has the value of their sum.
pub proof fn lemma_dot_two_terms(a: Seq<Q>, b: Seq<Q>, n: int, p: int, f: int)
    requires
        0 <= p < n,
        0 <= f < n,
        p != f,
        dens_pos(a, n),
        dens_pos(b, n),
        forall|i: int|
            0 <= i < n && i != p && i != f ==> (#[trigger] mul_pair(a[i], b[i])).0 == 0,
    ensures
        same_value(dot(a, b, n), add_pair(mul_pair(a[p], b[p]), mul_pair(a[f], b[f]))),
{
    lemma_two_part_dot(a, b, n, p, f);
    let lo = if p < f { p } else { f };
    let hi = if p < f { f } else { p };
    lemma_two_part_flat(a, b, n, hi + 1, p, f);
    lemma_two_part_flat(a, b, hi, lo + 1, p, f);
    lemma_two_part_flat(a, b, lo, 0, p, f);
    let tl = mul_pair(a[lo], b[lo]);
    let th = mul_pair(a[hi], b[hi]);
    assert(two_part(a, b, n, p, f) == add_pair(add_pair(qzero(), tl), th));
    assert(add_pair(qzero(), tl) == tl) by {
        assert(0 * tl.1 + tl.0 * 1 == tl.0 && 1 * tl.1 == tl.1) by (nonlinear_arith);
    }
    lemma_add_comm(tl, th);
}

} // verus!
