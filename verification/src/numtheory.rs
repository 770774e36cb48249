//! Greatest common divisors over the naturals, with the facts the rest of
//! the crate relies on.

use vstd::arithmetic::div_mod::*;
use vstd::arithmetic::mul::*;
use vstd::prelude::*;

verus! {

/// Euclid's algorithm as a specification.
pub open spec fn gcd(a: nat, b: nat) -> nat
    decreases b,
{
    if b == 0 {
        a
    } else {
        gcd(b, a % b)
    }
}

/// `d` is a positive divisor of `x`.
pub open spec fn divides(d: nat, x: nat) -> bool {
    d > 0 && x % d == 0
}

/// Executable Euclid's algorithm on `u128`.
pub fn gcd_u128(a: u128, b: u128) -> (r: u128)
    ensures
        r == gcd(a as nat, b as nat),
    decreases b,
{
    if b == 0 {
        a
    } else {
        gcd_u128(b, a % b)
    }
}

/// A divisor of `x` and `y` divides `q * y + x`.
pub proof fn lemma_divides_combination(d: nat, x: nat, y: nat, q: nat)
    requires
        divides(d, x),
        divides(d, y),
    ensures
        divides(d, q * y + x),
{
    lemma_mul_mod_noop_right(q as int, y as int, d as int);
    lemma_mod_self_0(d as int);
    lemma_small_mod(0, d);
    assert(((q * y) as int) % (d as int) == 0) by {
        assert((q as int) * ((y as int) % (d as int)) == 0) by (nonlinear_arith)
            requires (y as int) % (d as int) == 0;
    }
    lemma_add_mod_noop((q * y) as int, x as int, d as int);
}

/// The gcd divides both arguments whenever it is positive.
pub proof fn lemma_gcd_divides(a: nat, b: nat)
    requires
        a > 0 || b > 0,
    ensures
        gcd(a, b) > 0,
        divides(gcd(a, b), a),
        divides(gcd(a, b), b),
    decreases b,
{
    if b == 0 {
        lemma_mod_self_0(a as int);
        lemma_small_mod(0, a);
    } else {
        let r = a % b;
        lemma_mod_bound(a as int, b as int);
        lemma_gcd_divides(b, r);
        lemma_fundamental_div_mod(a as int, b as int);
        let q = a / b;
        assert(a == q * b + r) by {
            lemma_mul_is_commutative(q as int, b as int);
        }
        lemma_divides_combination(gcd(b, r), r, b, q);
    }
}

/// Scaling both arguments scales the gcd: `gcd(k a, k b) = k gcd(a, b)`.
pub proof fn lemma_gcd_scale(k: nat, a: nat, b: nat)
    requires
        k > 0,
    ensures
        gcd(k * a, k * b) == k * gcd(a, b),
    decreases b,
{
    if b == 0 {
        assert(k * b == 0) by (nonlinear_arith)
            requires b == 0;
    } else {
        let q = a / b;
        let r = a % b;
        lemma_fundamental_div_mod(a as int, b as int);
        lemma_mod_bound(a as int, b as int);
        assert(k * b > 0) by (nonlinear_arith)
            requires k > 0, b > 0;
        assert((k * a) as int == q * ((k * b) as int) + (k * r) as int) by (nonlinear_arith)
            requires a == b * q + r;
        assert((k * r) < (k * b)) by (nonlinear_arith)
            requires k > 0, r < b;
        lemma_fundamental_div_mod_converse(
            (k * a) as int,
            (k * b) as int,
            q as int,
            (k * r) as int,
        );
        assert((k * a) % (k * b) == k * r);
        lemma_gcd_scale(k, b, r);
    }
}

/// Dividing out the gcd leaves coprime quotients.
pub proof fn lemma_gcd_quotients_coprime(a: nat, b: nat)
    requires
        a > 0 || b > 0,
    ensures
        gcd(a / gcd(a, b), b / gcd(a, b)) == 1,
{
    let g = gcd(a, b);
    lemma_gcd_divides(a, b);
    lemma_fundamental_div_mod(a as int, g as int);
    lemma_fundamental_div_mod(b as int, g as int);
    let a1 = a / g;
    let b1 = b / g;
    assert(a == g * a1);
    assert(b == g * b1);
    lemma_gcd_scale(g, a1, b1);
    assert(g * gcd(a1, b1) == g * 1);
    lemma_mul_equality_converse(g as int, gcd(a1, b1) as int, 1);
}

/// A positive divisor is at most the (positive) number it divides.
pub proof fn lemma_divisor_le(d: nat, x: nat)
    requires
        divides(d, x),
        x > 0,
    ensures
        d <= x,
{
    lemma_fundamental_div_mod(x as int, d as int);
    if x / d == 0 {
        assert(x == d * (x / d));
        assert(false);
    }
    lemma_mul_increases((x / d) as int, d as int);
    lemma_mul_is_commutative((x / d) as int, d as int);
}

/// `gcd(0, b) == b`.
pub proof fn lemma_gcd_zero_left(b: nat)
    ensures
        gcd(0, b) == b,
{
    if b > 0 {
        lemma_small_mod(0, b);
        assert(gcd(0, b) == gcd(b, 0));
    }
}

/// The gcd of a whole sequence, folded from the left starting at 0.
pub open spec fn seq_gcd(s: Seq<nat>) -> nat
    decreases s.len(),
{
    if s.len() == 0 {
        0
    } else {
        gcd(seq_gcd(s.drop_last()), s.last())
    }
}

/// Divisibility is transitive.
pub proof fn lemma_divides_trans(a: nat, b: nat, c: nat)
    requires
        divides(a, b),
        divides(b, c),
    ensures
        divides(a, c),
{
    lemma_fundamental_div_mod(b as int, a as int);
    lemma_fundamental_div_mod(c as int, b as int);
    let p = b / a;
    let q = c / b;
    assert(c == a * (p * q)) by (nonlinear_arith)
        requires b == a * p, c == b * q;
    lemma_mod_multiples_basic((p * q) as int, a as int);
    lemma_mul_is_commutative(a as int, (p * q) as int);
}

/// `gcd(x, 0) == x` and `gcd(0, 0) == 0`.
pub proof fn lemma_gcd_zero_right(a: nat)
    ensures
        gcd(a, 0) == a,
{
}

/// The sequence gcd divides every entry; it is zero exactly when every
/// entry is zero.
pub proof fn lemma_seq_gcd_divides(s: Seq<nat>)
    ensures
        seq_gcd(s) == 0 <==> forall|i: int| 0 <= i < s.len() ==> s[i] == 0,
        seq_gcd(s) > 0 ==> forall|i: int| 0 <= i < s.len() ==> divides(seq_gcd(s), #[trigger] s[i]),
    decreases s.len(),
{
    if s.len() > 0 {
        let t = s.drop_last();
        lemma_seq_gcd_divides(t);
        let g = seq_gcd(t);
        let x = s.last();
        if g > 0 || x > 0 {
            lemma_gcd_divides(g, x);
            let h = gcd(g, x);
            assert forall|i: int| 0 <= i < s.len() implies divides(h, #[trigger] s[i]) by {
                if i < s.len() - 1 {
                    assert(s[i] == t[i]);
                    if g > 0 {
                        lemma_divides_trans(h, g, s[i]);
                    } else {
                        assert(t[i] == 0);
                        lemma_small_mod(0, h);
                    }
                }
            }
            assert(h > 0);
            assert(!(forall|i: int| 0 <= i < s.len() ==> s[i] == 0)) by {
                if x > 0 {
                    assert(s[s.len() - 1] == x);
                } else {
                    let j = choose|j: int| 0 <= j < t.len() && t[j] != 0;
                    assert(s[j] == t[j]);
                }
            }
        } else {
            assert forall|i: int| 0 <= i < s.len() implies s[i] == 0 by {
                if i < s.len() - 1 {
                    assert(s[i] == t[i]);
                }
            }
        }
    }
}

/// Scaling every entry by `k` scales the sequence gcd by `k`.
pub proof fn lemma_seq_gcd_scale(s: Seq<nat>, t: Seq<nat>, k: nat)
    requires
        k > 0,
        s.len() == t.len(),
        forall|i: int| 0 <= i < s.len() ==> #[trigger] s[i] == k * t[i],
    ensures
        seq_gcd(s) == k * seq_gcd(t),
    decreases s.len(),
{
    if s.len() == 0 {
        assert(k * 0 == 0) by (nonlinear_arith);
    } else {
        let s1 = s.drop_last();
        let t1 = t.drop_last();
        assert forall|i: int| 0 <= i < s1.len() implies #[trigger] s1[i] == k * t1[i] by {
            assert(s[i] == k * t[i]);
        }
        lemma_seq_gcd_scale(s1, t1, k);
        assert(s[s.len() - 1] == k * t[t.len() - 1]);
        lemma_gcd_scale(k, seq_gcd(t1), t.last());
    }
}

} // verus!
