//! Purchase quantities and costs of one offer, in exact arithmetic: the
//! purity-adjusted mass to buy, the whole packages that covers, what they
//! weigh and cost. The theoretical mass is the stoichiometric requirement
//! alone, never a yield.

use crate::commercial_catalog::model::{CommercialPrecursorOffer, CurrencyCode, Money};
use crate::error::GugenError;
use crate::frac::{add_pair, div_fits, fits_i128, mul_pair, reduce, same_value, sub_fits, Frac};
use crate::linalg::Q;
use vstd::prelude::*;

verus! {

/// `a / b` in lowest terms.
pub open spec fn qdiv(a: Q, b: Q) -> Q {
    reduce(a.0 * b.1, a.1 * b.0)
}

/// `a - b` in lowest terms.
pub open spec fn qsub(a: Q, b: Q) -> Q {
    reduce(add_pair(a, (-b.0, b.1)).0, add_pair(a, (-b.0, b.1)).1)
}

/// The least integer at least `q`, for a positive denominator.
pub open spec fn ceil_q(q: Q) -> int {
    if q.0 % q.1 == 0 {
        q.0 / q.1
    } else {
        q.0 / q.1 + 1
    }
}

/// An offer's unresolved fields are exactly those of purity, package mass,
/// unit price and lead time it leaves unreported, each named once.
pub proof fn lemma_unresolved_names(o: CommercialPrecursorOffer)
    ensures
        unresolved_names(o).len() == (if o.purity is None { 1int } else { 0int }) + (if o.package_mass
            is None {
            1int
        } else {
            0int
        }) + (if o.unit_price is None {
            1int
        } else {
            0int
        }) + (if o.lead_time_days is None {
            1int
        } else {
            0int
        }),
        unresolved_names(o).contains("purity"@) <==> o.purity is None,
        unresolved_names(o).contains("package_mass"@) <==> o.package_mass is None,
        unresolved_names(o).contains("unit_price"@) <==> o.unit_price is None,
        unresolved_names(o).contains("lead_time_days"@) <==> o.lead_time_days is None,
{
    reveal_strlit("purity");
    reveal_strlit("package_mass");
    reveal_strlit("unit_price");
    reveal_strlit("lead_time_days");
    let a: Seq<Seq<char>> = if o.purity is None { seq!["purity"@] } else { seq![] };
    let b: Seq<Seq<char>> = if o.package_mass is None { seq!["package_mass"@] } else { seq![] };
    let c: Seq<Seq<char>> = if o.unit_price is None { seq!["unit_price"@] } else { seq![] };
    let d: Seq<Seq<char>> = if o.lead_time_days is None { seq!["lead_time_days"@] } else { seq![] };
    let u = unresolved_names(o);
    assert(u == a + b + c + d);
    assert forall|x: Seq<char>| #[trigger] u.contains(x) <==> (a.contains(x) || b.contains(x) || c.contains(x)
        || d.contains(x)) by {
        if u.contains(x) {
            let i = choose|i: int| 0 <= i < u.len() && u[i] == x;
            if i < a.len() {
                assert(a[i] == x);
            } else if i < a.len() + b.len() {
                assert(b[i - a.len()] == x);
            } else if i < a.len() + b.len() + c.len() {
                assert(c[i - a.len() - b.len()] == x);
            } else {
                assert(d[i - a.len() - b.len() - c.len()] == x);
            }
        }
        if a.contains(x) {
            assert(u[0] == x);
        }
        if b.contains(x) {
            assert(u[a.len() as int] == x);
        }
        if c.contains(x) {
            assert(u[(a.len() + b.len()) as int] == x);
        }
        if d.contains(x) {
            assert(u[(a.len() + b.len() + c.len()) as int] == x);
        }
    }
    if o.purity is None {
        assert(a[0] == "purity"@);
    }
    if o.package_mass is None {
        assert(b[0] == "package_mass"@);
    }
    if o.unit_price is None {
        assert(c[0] == "unit_price"@);
    }
    if o.lead_time_days is None {
        assert(d[0] == "lead_time_days"@);
    }
}

/// The package count rounds up: `ceil_q(q)` whole units hold `q`, and one
/// fewer does not.
pub proof fn lemma_ceil_least(q: Q)
    requires
        q.1 > 0,
    ensures
        ceil_q(q) * q.1 >= q.0,
        (ceil_q(q) - 1) * q.1 < q.0,
{
    let d = q.0 / q.1;
    let r = q.0 % q.1;
    vstd::arithmetic::div_mod::lemma_fundamental_div_mod(q.0, q.1);
    vstd::arithmetic::div_mod::lemma_mod_bound(q.0, q.1);
    if r == 0 {
        assert(d * q.1 >= q.0 && (d - 1) * q.1 < q.0) by (nonlinear_arith)
            requires q.0 == q.1 * d + r, r == 0, q.1 > 0;
    } else {
        assert((d + 1) * q.1 >= q.0 && d * q.1 < q.0) by (nonlinear_arith)
            requires q.0 == q.1 * d + r, 0 < r < q.1, q.1 > 0;
    }
}

/// Dividing by a nonzero rational: the quotient times the divisor is the
/// dividend, so the purity-adjusted mass at that purity is the mass needed.
pub proof fn lemma_qdiv_meaning(a: Q, b: Q)
    requires
        a.1 > 0,
        b.1 > 0,
        b.0 != 0,
    ensures
        same_value(mul_pair(qdiv(a, b), b), a),
{
    let n = a.0 * b.1;
    let d = a.1 * b.0;
    assert(d != 0) by (nonlinear_arith)
        requires d == a.1 * b.0, a.1 > 0, b.0 != 0;
    crate::frac::lemma_reduce(n, d);
    let r = reduce(n, d);
    assert((r.0 * b.0) * a.1 == a.0 * (r.1 * b.1)) by (nonlinear_arith)
        requires r.0 * d == n * r.1, n == a.0 * b.1, d == a.1 * b.0;
}

/// Subtracting: the difference plus what was subtracted is the original,
/// so the excess mass plus the needed mass is the purchased mass.
pub proof fn lemma_qsub_meaning(a: Q, b: Q)
    requires
        a.1 > 0,
        b.1 > 0,
    ensures
        same_value(add_pair(qsub(a, b), b), a),
{
    let s = add_pair(a, (-b.0, b.1));
    assert(s.1 > 0) by (nonlinear_arith)
        requires s.1 == a.1 * b.1, a.1 > 0, b.1 > 0;
    crate::frac::lemma_reduce(s.0, s.1);
    let r = reduce(s.0, s.1);
    lemma_add_back(r.0, r.1, a.0, a.1, b.0, b.1);
}

/// `r = a - b` as cross products gives back `a = r + b`.
proof fn lemma_add_back(r0: int, r1: int, a0: int, a1: int, b0: int, b1: int)
    requires
        r0 * (a1 * b1) == (a0 * b1 + (-b0) * a1) * r1,
    ensures
        (r0 * b1 + b0 * r1) * a1 == a0 * (r1 * b1),
{
    assert(r0 * (a1 * b1) == (r0 * b1) * a1) by (nonlinear_arith);
    assert((a0 * b1 + (-b0) * a1) * r1 == a0 * (r1 * b1) - (b0 * r1) * a1) by (nonlinear_arith);
    assert((r0 * b1 + b0 * r1) * a1 == (r0 * b1) * a1 + (b0 * r1) * a1) by (nonlinear_arith);
}

/// One of the exact quantities of `offer` for `required` grams leaves
/// `i128`: the purity-adjusted mass, the packages it takes, their mass or
/// the excess over the need.
pub open spec fn quantity_overflows(offer: CommercialPrecursorOffer, required: Q) -> bool {
    match offer.purity {
        None => false,
        Some(p) => {
            let pv = p.fraction()@;
            ||| !div_fits(required, pv)
            ||| match offer.package_mass {
                None => false,
                Some(pkg) => {
                    let a = qdiv(required, pv);
                    let g = pkg.in_grams()@;
                    let c = capped(ceil_q(qdiv(a, g)));
                    ||| !div_fits(a, g)
                    ||| !fits_i128(c * g.0)
                    ||| !sub_fits(reduce(c * g.0, g.1), a)
                },
            }
        },
    }
}

/// `n`, saturated at `u64::MAX`.
pub open spec fn capped(n: int) -> int {
    if n > u64::MAX {
        u64::MAX as int
    } else {
        n
    }
}

/// The fields an offer does not report, of those the quantities need.
pub open spec fn unresolved_names(o: CommercialPrecursorOffer) -> Seq<Seq<char>> {
    (if o.purity is None {
        seq!["purity"@]
    } else {
        seq![]
    }) + (if o.package_mass is None {
        seq!["package_mass"@]
    } else {
        seq![]
    }) + (if o.unit_price is None {
        seq!["unit_price"@]
    } else {
        seq![]
    }) + (if o.lead_time_days is None {
        seq!["lead_time_days"@]
    } else {
        seq![]
    })
}

/// The texts of a list of names.
pub open spec fn name_views(v: Seq<&'static str>) -> Seq<Seq<char>> {
    v.map_values(|s: &'static str| s@)
}

/// Names the fields among purity, package mass, unit price and lead time
/// that `offer` leaves unreported, in that order.
pub fn unresolved_fields_for(offer: &CommercialPrecursorOffer) -> (r: Vec<&'static str>)
    ensures
        name_views(r@) == unresolved_names(*offer),
{
    let mut fields: Vec<&'static str> = Vec::new();
    let ghost mut names: Seq<Seq<char>> = seq![];
    if offer.purity.is_none() {
        fields.push("purity");
        proof {
            names = names + seq!["purity"@];
        }
    }
    if offer.package_mass.is_none() {
        fields.push("package_mass");
        proof {
            names = names + seq!["package_mass"@];
        }
    }
    if offer.unit_price.is_none() {
        fields.push("unit_price");
        proof {
            names = names + seq!["unit_price"@];
        }
    }
    if offer.lead_time_days.is_none() {
        fields.push("lead_time_days");
        proof {
            names = names + seq!["lead_time_days"@];
        }
    }
    assert(name_views(fields@) =~= names);
    assert(names =~= unresolved_names(*offer));
    fields
}

/// How much of one offer to buy and what it costs. Every mass is in grams.
#[derive(Debug, Clone, PartialEq, Eq)]
pub struct OfferQuantity {
    /// `None` when the offer's purity is unknown.
    pub purity_adjusted_purchase_mass_grams: Option<Frac>,
    /// `None` when the purity or the package mass is unknown.
    pub package_count: Option<u64>,
    pub purchased_mass_grams: Option<Frac>,
    pub excess_mass_grams: Option<Frac>,
    /// `None` when the price or the package count is unknown, or the
    /// multiplication overflowed; never zero by default.
    pub subtotal: Option<Money>,
    pub cost_overflowed: bool,
}

/// The quantities of `offer` for `required` grams of pure precursor: the
/// mass divided by the purity, the packages that cover it (rounded up, at
/// most `u64::MAX`), their total mass and its excess over the need, and
/// the price times the package count. `Err(ArithmeticOverflow)` exactly
/// when one of those exact masses leaves the `i128` range
/// ([`quantity_overflows`]).
pub fn compute_offer_quantity(offer: &CommercialPrecursorOffer, required: Frac) -> (r: Result<OfferQuantity, GugenError>)
    requires
        required.wf(),
        required@.0 >= 0,
    ensures
        r is Err ==> r->Err_0 == GugenError::ArithmeticOverflow,
        r is Err <==> quantity_overflows(*offer, required@),
        r matches Ok(q) ==> {
            &&& (offer.purity is Some ==> (q.purity_adjusted_purchase_mass_grams is Some
                && q.purity_adjusted_purchase_mass_grams->0.wf()
                && q.purity_adjusted_purchase_mass_grams->0@ == qdiv(required@, offer.purity->0.fraction()@)))
            &&& (offer.purity is None ==> q.purity_adjusted_purchase_mass_grams is None)
            &&& (q.purity_adjusted_purchase_mass_grams is Some && offer.package_mass is Some
                ==> q.package_count == Some(
                capped(
                    ceil_q(qdiv(q.purity_adjusted_purchase_mass_grams->0@, offer.package_mass->0.in_grams()@)),
                ) as u64,
            ))
            &&& (q.purity_adjusted_purchase_mass_grams is None || offer.package_mass is None
                ==> q.package_count is None)
            &&& (q.package_count is Some && offer.package_mass is Some ==> (q.purchased_mass_grams is Some
                && q.purchased_mass_grams->0.wf() && q.purchased_mass_grams->0@ == reduce(
                q.package_count->0 * offer.package_mass->0.in_grams()@.0,
                offer.package_mass->0.in_grams()@.1,
            )))
            &&& (q.package_count is None ==> q.purchased_mass_grams is None)
            &&& (q.purchased_mass_grams is Some && q.purity_adjusted_purchase_mass_grams is Some ==> (
            q.excess_mass_grams is Some && q.excess_mass_grams->0.wf() && q.excess_mass_grams->0@ == qsub(
                q.purchased_mass_grams->0@,
                q.purity_adjusted_purchase_mass_grams->0@,
            )))
            &&& (q.purchased_mass_grams is None ==> q.excess_mass_grams is None)
            &&& (offer.unit_price is Some && q.package_count is Some ==> (q.cost_overflowed == (
            offer.unit_price->0.units() * q.package_count->0 > u64::MAX) && (!q.cost_overflowed ==> (
            q.subtotal is Some && q.subtotal->0.units() == offer.unit_price->0.units() * q.package_count->0
                && q.subtotal->0.code() == offer.unit_price->0.code())) && (q.cost_overflowed
                ==> q.subtotal is None)))
            &&& (offer.unit_price is None || q.package_count is None ==> q.subtotal is None
                && !q.cost_overflowed)
        },
{
    let adjusted = match offer.purity {
        Some(p) => {
            let pv = p.value();
            match required.checked_div(pv) {
                Ok(a) => {
                    proof {
                        assert(required@.0 * pv@.1 >= 0) by (nonlinear_arith)
                            requires required@.0 >= 0, pv@.1 > 0;
                        assert(required@.1 * pv@.0 > 0) by (nonlinear_arith)
                            requires required@.1 > 0, pv@.0 > 0;
                        crate::frac::lemma_reduce_sign(required@.0 * pv@.1, required@.1 * pv@.0);
                    }
                    Some(a)
                },
                Err(e) => return Err(e),
            }
        },
        None => None,
    };
    let package_count: Option<u64> = match (adjusted, offer.package_mass) {
        (Some(a), Some(pkg)) => {
            let g = pkg.grams();
            let q = match a.checked_div(g) {
                Ok(q) => q,
                Err(e) => return Err(e),
            };
            proof {
                assert(a@.0 * g@.1 >= 0) by (nonlinear_arith)
                    requires a@.0 >= 0, g@.1 > 0;
                assert(a@.1 * g@.0 > 0) by (nonlinear_arith)
                    requires a@.1 > 0, g@.0 > 0;
                crate::frac::lemma_reduce_sign(a@.0 * g@.1, a@.1 * g@.0);
            }
            let n = q.numerator();
            let d = q.denominator();
            let whole = n / d;
            let up = if n % d == 0 {
                whole
            } else {
                proof {
                    vstd::arithmetic::div_mod::lemma_fundamental_div_mod(n as int, d as int);
                    if d == 1 {
                        vstd::arithmetic::div_mod::lemma_mod_self_0(1);
                        vstd::arithmetic::div_mod::lemma_mod_multiples_basic(n as int, 1);
                        assert(n % d == 0);
                    }
                    assert(whole * 2 <= n) by (nonlinear_arith)
                        requires n == d * whole + n % d, d >= 2, whole >= 0, n % d >= 0;
                }
                whole + 1
            };
            Some(
                if up > 18446744073709551615i128 {
                    18446744073709551615u64
                } else {
                    up as u64
                },
            )
        },
        _ => None,
    };
    let purchased = match (package_count, offer.package_mass) {
        (Some(c), Some(pkg)) => {
            let count = match Frac::new(c as i128, 1) {
                Ok(x) => x,
                Err(e) => return Err(e),
            };
            proof {
                crate::frac::lemma_reduce_whole(c as int);
            }
            let g = pkg.grams();
            match count.checked_mul(g) {
                Ok(m) => {
                    assert(count@ == (c as int, 1int));
                    assert(m@ == reduce(c * g@.0, 1 * g@.1));
                    assert(1 * g@.1 == g@.1);
                    Some(m)
                },
                Err(e) => {
                    assert(count@ == (c as int, 1int));
                    assert(1 * g@.1 == g@.1);
                    proof { g.lemma_view_bounds(); }
                    assert(!fits_i128(c * g@.0));
                    return Err(e);
                },
            }
        },
        _ => None,
    };
    let excess = match (purchased, adjusted) {
        (Some(m), Some(a)) => match m.checked_sub(a) {
            Ok(e) => Some(e),
            Err(e) => return Err(e),
        },
        _ => None,
    };
    let mut cost_overflowed = false;
    let subtotal = match (offer.unit_price, package_count) {
        (Some(price), Some(c)) => match price.checked_mul_quantity(c) {
            Some(money) => Some(money),
            None => {
                cost_overflowed = true;
                None
            },
        },
        _ => None,
    };
    Ok(
        OfferQuantity {
            purity_adjusted_purchase_mass_grams: adjusted,
            package_count,
            purchased_mass_grams: purchased,
            excess_mass_grams: excess,
            subtotal,
            cost_overflowed,
        },
    )
}

/// The key subtotals rank by: known ones first, grouped by currency, then
/// by amount; unknown ones last.
pub fn cost_rank_key(subtotal: Option<Money>) -> (r: (u8, Option<CurrencyCode>, u64))
    ensures
        r == (match subtotal {
            Some(m) => (0u8, Some(m.code()), m.units()),
            None => (1u8, None, 0u64),
        }),
{
    match subtotal {
        Some(money) => (0, Some(money.currency()), money.minor_units()),
        None => (1, None, 0),
    }
}

} // verus!
