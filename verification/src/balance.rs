//! Reaction balancing: the element x species matrix of a reactant and
//! product list, its exact reduced row echelon form, and one reaction per
//! single-signed null-space basis vector.

use crate::composition::{is_element_symbol, pairs_map, symbol_seq, Composition, Element};
use crate::error::GugenError;
use crate::frac::{add_pair, is_canonical, lemma_reduce_whole, mul_pair, same_value, Frac};
use crate::linalg::{
    dens_pos, dot, lemma_add_assoc, lemma_add_comm, lemma_add_congr, lemma_dot_comm,
    lemma_dot_den_pos, lemma_dot_scale, lemma_dot_zero_terms, lemma_same_value_trans, qneg, Q,
};
use crate::numtheory::seq_gcd;
use crate::reaction::{
    all_species_wf, amount_q, checked_total, conserves, element_check_fits, lemma_amount_den, lemma_neg_add,
    lemma_total_den, mentions, species_term, species_total, BalancedReaction, ReactionSpecies,
};
use crate::rref::{
    candidate, echelon, fq, matrix_ok, mview, null_vector, qm, rref_of, row_reduce,
    solutions_preserved, solves,
};
use crate::scaling::{
    abs_nats, common_divisor, den_lcm, lemma_scale_outcome, nonneg_canonical, scale_outcome,
    scaled_ints,
};
use vstd::prelude::*;

pub use crate::scaling::scale_to_integers;

verus! {
/// The element row of the reaction matrix: reactant amounts, then negated
/// product amounts.
pub open spec fn amount_row(rs: Seq<Composition>, ps: Seq<Composition>, e: Element) -> Seq<Q> {
    Seq::new(
        (rs.len() + ps.len()) as nat,
        |j: int|
            if j < rs.len() {
                amount_q(rs[j], e)
            } else {
                qneg(amount_q(ps[j - rs.len()], e))
            },
    )
}

/// `species` lists, in order, the compositions of `comps` whose
/// coefficient in `c` (read from offset `off`) is nonzero, each with that
/// coefficient.
pub open spec fn side_matches(
    species: Seq<ReactionSpecies>,
    comps: Seq<Composition>,
    c: Seq<int>,
    off: int,
) -> bool
    decreases comps.len(),
{
    if comps.len() == 0 {
        species.len() == 0
    } else {
        let k = comps.len() - 1;
        if c[off + k] == 0 {
            side_matches(species, comps.drop_last(), c, off)
        } else {
            &&& species.len() > 0
            &&& species.last().comp()@ == comps[k]@
            &&& species.last().comp().listing() == comps[k].listing()
            &&& species.last().coeff() == c[off + k]
            &&& side_matches(species.drop_last(), comps.drop_last(), c, off)
        }
    }
}

/// `rx` is the reaction with stoichiometric vector `c` over the listed
/// reactants and products.
pub open spec fn reaction_with(
    rx: BalancedReaction,
    rs: Seq<Composition>,
    ps: Seq<Composition>,
    c: Seq<int>,
) -> bool {
    &&& c.len() == rs.len() + ps.len()
    &&& forall|i: int| 0 <= i < c.len() ==> #[trigger] c[i] >= 0
    &&& seq_gcd(abs_nats(c)) == 1
    &&& side_matches(rx@.0, rs, c, 0)
    &&& side_matches(rx@.1, ps, c, rs.len() as int)
}

/// `rx` is the reaction of some minimal non-negative integer vector over
/// the listed reactants and products.
pub open spec fn produced_by(rx: BalancedReaction, rs: Seq<Composition>, ps: Seq<Composition>) -> bool {
    exists|c: Seq<int>| reaction_with(rx, rs, ps, c)
}

/// Reactant total minus product total.
pub open spec fn net(r: Seq<ReactionSpecies>, p: Seq<ReactionSpecies>, e: Element) -> Q {
    add_pair(species_total(r, e), qneg(species_total(p, e)))
}

/// All compositions are well formed.
pub open spec fn all_wf(cs: Seq<Composition>) -> bool {
    forall|i: int| 0 <= i < cs.len() ==> (#[trigger] cs[i]).wf()
}

proof fn lemma_row_dens_pos(rs: Seq<Composition>, ps: Seq<Composition>, e: Element)
    requires
        all_wf(rs),
        all_wf(ps),
    ensures
        dens_pos(amount_row(rs, ps, e), (rs.len() + ps.len()) as int),
{
    assert forall|j: int| 0 <= j < rs.len() + ps.len() implies (#[trigger] amount_row(
        rs,
        ps,
        e,
    )[j]).1 > 0 by {
        if j < rs.len() {
            lemma_amount_den(rs[j], e);
        } else {
            lemma_amount_den(ps[j - rs.len()], e);
        }
    }
}

/// Pushing a species onto the reactant side adds its term to `net`.
proof fn lemma_net_push_reactant(r: Seq<ReactionSpecies>, p: Seq<ReactionSpecies>, s: ReactionSpecies, e: Element)
    ensures
        net(r.push(s), p, e) == add_pair(net(r, p, e), species_term(s, e)),
{
    assert(r.push(s).drop_last() =~= r);
    let tr = species_total(r, e);
    let tp = qneg(species_total(p, e));
    let t = species_term(s, e);
    lemma_add_assoc(tr, t, tp);
    lemma_add_comm(t, tp);
    lemma_add_assoc(tr, tp, t);
}

/// Pushing a species onto the product side subtracts its term from `net`.
proof fn lemma_net_push_product(r: Seq<ReactionSpecies>, p: Seq<ReactionSpecies>, s: ReactionSpecies, e: Element)
    ensures
        net(r, p.push(s), e) == add_pair(net(r, p, e), qneg(species_term(s, e))),
{
    assert(p.push(s).drop_last() =~= p);
    let tr = species_total(r, e);
    let tp = species_total(p, e);
    let t = species_term(s, e);
    lemma_neg_add(tp, t);
    lemma_add_assoc(tr, qneg(tp), qneg(t));
}

/// Every coefficient from `lo` up to `hi` is zero.
pub open spec fn side_zero(c: Seq<int>, lo: int, hi: int) -> bool {
    forall|k: int| lo <= k < hi ==> #[trigger] c[k] == 0
}

/// No entry of `v` is negative.
pub open spec fn nonneg_entries(v: Seq<Q>) -> bool {
    forall|k: int| 0 <= k < v.len() ==> (#[trigger] v[k]).0 >= 0
}

/// No entry of `v` is positive.
pub open spec fn nonpos_entries(v: Seq<Q>) -> bool {
    forall|k: int| 0 <= k < v.len() ==> (#[trigger] v[k]).0 <= 0
}

/// Every entry of `v` multiplied by `sc`.
pub open spec fn scaled_by(v: Seq<Q>, sc: Q) -> Seq<Q> {
    Seq::new(v.len(), |k: int| mul_pair(v[k], sc))
}

/// The minimal non-negative integer coefficients of a null-space vector:
/// `None` when its entries have mixed signs, when scaling to integers
/// fails, or when a side has no nonzero coefficient. A vector with no
/// positive entry is negated first.
pub open spec fn coeffs_of(v: Seq<Q>, rn: int) -> Option<Seq<int>> {
    let nonneg = nonneg_entries(v);
    let nonpos = nonpos_entries(v);
    if !nonneg && !nonpos {
        None
    } else {
        let sc: Q = if nonpos && !nonneg {
            (-1int, 1int)
        } else {
            (1int, 1int)
        };
        match scale_outcome(scaled_by(v, sc)) {
            None => None,
            Some(c) => if side_zero(c, 0, rn) || side_zero(c, rn, v.len() as int) {
                None
            } else {
                Some(c)
            },
        }
    }
}

/// Negating a vector with no positive entry fails: some numerator is
/// `i128::MIN`.
pub open spec fn flip_overflows(v: Seq<Q>) -> bool {
    &&& exists|k: int| 0 <= k < v.len() && (#[trigger] v[k]).0 < 0
    &&& forall|k: int| 0 <= k < v.len() ==> (#[trigger] v[k]).0 <= 0
    &&& exists|k: int| 0 <= k < v.len() && (#[trigger] v[k]).0 == i128::MIN
}

/// The reaction with coefficients `c` has an element whose checked totals
/// leave the `i128` range.
pub open spec fn totals_overflow(rs: Seq<Composition>, ps: Seq<Composition>, c: Seq<int>) -> bool {
    exists|sr: Seq<ReactionSpecies>, sp: Seq<ReactionSpecies>|
        #[trigger] side_matches(sr, rs, c, 0) && #[trigger] side_matches(sp, ps, c, rs.len() as int)
            && exists|e: Element| (mentions(sr, e) || mentions(sp, e)) && !#[trigger] element_check_fits(sr, sp, e)
}

/// With a single sign and a scaled form, the coefficients are those of the
/// scaled form unless a side is all zero.
proof fn lemma_coeffs_of(v: Seq<Q>, rn: int, sc: Q, c: Seq<int>)
    requires
        nonneg_entries(v) || nonpos_entries(v),
        sc == (if nonpos_entries(v) && !nonneg_entries(v) {
            (-1int, 1int)
        } else {
            (1int, 1int)
        }),
        scale_outcome(scaled_by(v, sc)) == Some(c),
    ensures
        coeffs_of(v, rn) == (if side_zero(c, 0, rn) || side_zero(c, rn, v.len() as int) {
            None
        } else {
            Some(c)
        }),
{
}

/// Two species lists matching the same side agree entry by entry.
proof fn lemma_side_unique(
    s1: Seq<ReactionSpecies>,
    s2: Seq<ReactionSpecies>,
    comps: Seq<Composition>,
    c: Seq<int>,
    off: int,
)
    requires
        side_matches(s1, comps, c, off),
        side_matches(s2, comps, c, off),
    ensures
        s1.len() == s2.len(),
        forall|i: int| 0 <= i < s1.len() ==> (#[trigger] s1[i]).comp()@ == s2[i].comp()@ && s1[i].coeff()
            == s2[i].coeff(),
    decreases comps.len(),
{
    if comps.len() > 0 {
        let k = comps.len() - 1;
        if c[off + k] == 0 {
            lemma_side_unique(s1, s2, comps.drop_last(), c, off);
        } else {
            lemma_side_unique(s1.drop_last(), s2.drop_last(), comps.drop_last(), c, off);
            assert forall|i: int| 0 <= i < s1.len() implies (#[trigger] s1[i]).comp()@ == s2[i].comp()@
                && s1[i].coeff() == s2[i].coeff() by {
                if i < s1.len() - 1 {
                    assert(s1[i] == s1.drop_last()[i]);
                    assert(s2[i] == s2.drop_last()[i]);
                }
            }
        }
    }
}

/// Species lists that agree entry by entry have the same checked totals
/// and mention the same elements.
proof fn lemma_totals_agree(s1: Seq<ReactionSpecies>, s2: Seq<ReactionSpecies>, e: Element)
    requires
        s1.len() == s2.len(),
        forall|i: int| 0 <= i < s1.len() ==> (#[trigger] s1[i]).comp()@ == s2[i].comp()@ && s1[i].coeff()
            == s2[i].coeff(),
    ensures
        checked_total(s1, e) == checked_total(s2, e),
        mentions(s1, e) <==> mentions(s2, e),
    decreases s1.len(),
{
    if s1.len() > 0 {
        lemma_totals_agree(s1.drop_last(), s2.drop_last(), e);
        assert(s1.last().comp()@ == s2.last().comp()@);
    }
    if mentions(s1, e) {
        let i = choose|i: int| 0 <= i < s1.len() && (#[trigger] s1[i]).comp()@.contains_key(e);
        assert(s2[i].comp()@.contains_key(e));
    }
    if mentions(s2, e) {
        let i = choose|i: int| 0 <= i < s2.len() && (#[trigger] s2[i]).comp()@.contains_key(e);
        assert(s1[i].comp()@ == s2[i].comp()@);
        assert(s1[i].comp()@.contains_key(e));
    }
}

/// A side whose species list is empty has every coefficient zero.
proof fn lemma_side_empty(species: Seq<ReactionSpecies>, comps: Seq<Composition>, c: Seq<int>, off: int)
    requires
        side_matches(species, comps, c, off),
        species.len() == 0,
    ensures
        forall|i: int| off <= i < off + comps.len() ==> #[trigger] c[i] == 0,
    decreases comps.len(),
{
    if comps.len() > 0 {
        lemma_side_empty(species, comps.drop_last(), c, off);
    }
}

/// Converts one null-space vector of the reaction matrix into a balanced
/// reaction: `None` when its entries have mixed signs, when scaling to
/// integers overflows, or when a side ends up empty.
fn vector_to_reaction(vector: &Vec<Frac>, reactants: &[Composition], products: &[Composition]) -> (r:
    Result<Option<BalancedReaction>, GugenError>)
    requires
        all_wf(reactants@),
        all_wf(products@),
        vector@.len() == reactants@.len() + products@.len(),
        forall|i: int| 0 <= i < vector@.len() ==> (#[trigger] vector@[i]).wf(),
        forall|e: Element|
            (#[trigger] dot(amount_row(reactants@, products@, e), fq(vector@), vector@.len() as int)).0
                == 0,
    ensures
        r is Err ==> r->Err_0 == GugenError::ArithmeticOverflow,
        r matches Ok(Some(rx)) ==> rx.wf() && produced_by(rx, reactants@, products@),
        r matches Ok(None) ==> coeffs_of(fq(vector@), reactants@.len() as int) is None,
        r matches Ok(Some(rx)) ==> coeffs_of(fq(vector@), reactants@.len() as int) matches Some(c)
            && reaction_with(rx, reactants@, products@, c),
        r is Err ==> flip_overflows(fq(vector@)) || (coeffs_of(
            fq(vector@),
            reactants@.len() as int,
        ) matches Some(c) && totals_overflow(reactants@, products@, c)),
        flip_overflows(fq(vector@)) ==> r is Err,
        (coeffs_of(fq(vector@), reactants@.len() as int) matches Some(c) && totals_overflow(
            reactants@,
            products@,
            c,
        )) ==> r is Err,
{
    let n = vector.len();
    let rn = reactants.len();
    let ghost v = fq(vector@);
    let mut all_nonneg = true;
    let mut all_nonpos = true;
    let mut i: usize = 0;
    while i < n
        invariant
            i <= n,
            n == vector@.len(),
            v == fq(vector@),
            all_nonneg == (forall|k: int| 0 <= k < i ==> (#[trigger] v[k]).0 >= 0),
            all_nonpos == (forall|k: int| 0 <= k < i ==> (#[trigger] v[k]).0 <= 0),
        decreases n - i,
    {
        let x = vector[i].numerator();
        assert(v[i as int] == vector@[i as int]@);
        if x < 0 {
            all_nonneg = false;
        }
        if x > 0 {
            all_nonpos = false;
        }
        i = i + 1;
    }
    assert(all_nonneg == nonneg_entries(v));
    assert(all_nonpos == nonpos_entries(v));
    if !all_nonneg && !all_nonpos {
        return Ok(None);
    }
    let negate = all_nonpos && !all_nonneg;
    let ghost sc: Q = if negate { (-1int, 1int) } else { (1int, 1int) };
    let mut signed: Vec<Frac> = Vec::new();
    let mut i: usize = 0;
    while i < n
        invariant
            i <= n,
            n == vector@.len(),
            v == fq(vector@),
            forall|k: int| 0 <= k < n ==> (#[trigger] vector@[k]).wf(),
            negate ==> forall|k: int| 0 <= k < n ==> (#[trigger] v[k]).0 <= 0,
            negate ==> exists|k: int| 0 <= k < n && (#[trigger] v[k]).0 < 0,
            negate ==> forall|k: int| 0 <= k < i ==> (#[trigger] v[k]).0 != i128::MIN,
            negate == ((forall|k: int| 0 <= k < n ==> (#[trigger] v[k]).0 <= 0) && !(forall|k: int|
                0 <= k < n ==> (#[trigger] v[k]).0 >= 0)),
            !negate ==> forall|k: int| 0 <= k < n ==> (#[trigger] v[k]).0 >= 0,
            sc == (if negate { (-1int, 1int) } else { (1int, 1int) }),
            signed@.len() == i,
            forall|k: int|
                0 <= k < i ==> (#[trigger] signed@[k]).wf() && signed@[k]@.0 >= 0
                    && signed@[k]@ == mul_pair(v[k], sc),
        decreases n - i,
    {
        let f = vector[i];
        assert(v[i as int] == f@);
        let x = if negate {
            match f.checked_neg() {
                Ok(x) => x,
                Err(e) => {
                    proof {
                        assert(v[i as int].0 == i128::MIN);
                        let k0 = choose|k: int| 0 <= k < n && (#[trigger] v[k]).0 < 0;
                        assert(v[k0].0 < 0);
                        assert(flip_overflows(v));
                    }
                    return Err(e);
                },
            }
        } else {
            f
        };
        proof {
            assert(f@.0 * -1 == -f@.0 && f@.1 * 1 == f@.1 && f@.0 * 1 == f@.0) by (nonlinear_arith);
        }
        signed.push(x);
        i = i + 1;
    }
    let ghost sv = fq(signed@);
    proof {
        assert(nonneg_canonical(sv)) by {
            assert forall|k: int| 0 <= k < sv.len() implies is_canonical(#[trigger] sv[k]) && sv[k].0
                >= 0 by {
                assert(signed@[k].wf());
            }
        }
    }
    let sl = signed.as_slice();
    assert(sl@ == signed@);
    let out = match scale_to_integers(sl) {
        Ok(Some(out)) => out,
        Ok(None) => {
            proof {
                assert(scaled_by(v, sc) =~= sv);
                assert(sc == (if nonpos_entries(v) && !nonneg_entries(v) {
                    (-1int, 1int)
                } else {
                    (1int, 1int)
                }));
            }
            return Ok(None);
        },
        Err(e) => {
            return Err(e);
        },
    };
    let ghost c: Seq<int> = scale_outcome(sv)->Some_0;
    let ghost l = den_lcm(sv, sv.len() as int)->Some_0;
    let ghost cd = common_divisor(scaled_ints(sv, l));
    let ghost cq: Seq<Q> = Seq::new(n as nat, |k: int| (c[k], 1int));
    proof {
        lemma_scale_outcome(sv);
        assert forall|k: int| 0 <= k < n implies #[trigger] out@[k] as int == c[k] by {}
    }
    // The coefficient vector is a null vector of every element row.
    proof {
        assert forall|e: Element| (#[trigger] dot(amount_row(reactants@, products@, e), cq, n as int)).0
            == 0 by {
            let row = amount_row(reactants@, products@, e);
            lemma_row_dens_pos(reactants@, products@, e);
            let k2: Q = (sc.0 * l, sc.1 * cd);
            assert(k2.1 > 0) by (nonlinear_arith)
                requires k2.1 == sc.1 * cd, sc.1 == 1, cd > 0;
            assert(dens_pos(v, n as int)) by {
                assert forall|k: int| 0 <= k < n implies (#[trigger] v[k]).1 > 0 by {
                    assert(vector@[k].wf());
                }
            }
            assert(dens_pos(cq, n as int));
            assert forall|k: int| 0 <= k < n implies same_value(
                #[trigger] cq[k],
                mul_pair(v[k], k2),
            ) by {
                assert(same_value((c[k], 1int), mul_pair(sv[k], (l, cd))));
                assert(sv[k] == mul_pair(v[k], sc));
                vstd::arithmetic::mul::lemma_mul_is_associative(v[k].0, sc.0, l);
                vstd::arithmetic::mul::lemma_mul_is_associative(v[k].1, sc.1, cd);
                assert(mul_pair(mul_pair(v[k], sc), (l, cd)) == mul_pair(v[k], k2));
            }
            lemma_dot_scale(v, cq, k2, row, n as int);
            lemma_dot_comm(row, cq, n as int);
            lemma_dot_comm(row, v, n as int);
            lemma_dot_den_pos(cq, row, n as int);
            lemma_dot_den_pos(v, row, n as int);
            let d = dot(v, row, n as int);
            let dd = dot(cq, row, n as int);
            assert(d.0 == 0);
            assert(dd.0 == 0) by (nonlinear_arith)
                requires dd.0 * (d.1 * k2.1) == (d.0 * k2.0) * dd.1, d.0 == 0, d.1 > 0, k2.1 > 0;
        }
    }
    let mut rs_species: Vec<ReactionSpecies> = Vec::new();
    let mut j: usize = 0;
    proof {
        assert forall|e: Element|
            same_value(
                #[trigger] net(rs_species@, Seq::empty(), e),
                dot(amount_row(reactants@, products@, e), cq, 0),
            ) by {
            assert(net(rs_species@, Seq::empty(), e) == add_pair((0int, 1int), qneg((0int, 1int))));
            assert(add_pair((0int, 1int), qneg((0int, 1int))) == (0int, 1int)) by (nonlinear_arith);
        }
    }
    while j < rn
        invariant
            j <= rn,
            rn == reactants@.len(),
            n == reactants@.len() + products@.len(),
            out@.len() == n,
            forall|k: int| 0 <= k < n ==> #[trigger] out@[k] as int == c[k],
            cq == Seq::new(n as nat, |k: int| (c[k], 1int)),
            all_wf(reactants@),
            all_wf(products@),
            all_species_wf(rs_species@),
            side_matches(rs_species@, reactants@.take(j as int), c, 0),
            forall|e: Element|
                same_value(
                    #[trigger] net(rs_species@, Seq::empty(), e),
                    dot(amount_row(reactants@, products@, e), cq, j as int),
                ),
        decreases rn - j,
    {
        let ghost before = rs_species@;
        proof {
            assert(reactants@.take(j + 1).drop_last() =~= reactants@.take(j as int));
            assert(reactants@.take(j + 1)[j as int] == reactants@[j as int]);
        }
        let cj = out[j];
        if cj != 0 {
            let comp = reactants[j].duplicate();
            let sp = match ReactionSpecies::new(comp, cj) {
                Ok(sp) => sp,
                Err(e) => {
                    return Err(e);
                },
            };
            rs_species.push(sp);
            proof {
                assert(rs_species@.drop_last() =~= before);
                assert(all_species_wf(rs_species@)) by {
                    assert forall|k: int| 0 <= k < rs_species@.len() implies (#[trigger] rs_species@[k]).wf() by {
                        if k < before.len() {
                            assert(rs_species@[k] == before[k]);
                        } else {
                            assert(reactants@[j as int].wf());
                        }
                    }
                }
            }
        }
        proof {
            assert forall|e: Element|
                same_value(
                    #[trigger] net(rs_species@, Seq::empty(), e),
                    dot(amount_row(reactants@, products@, e), cq, j + 1),
                ) by {
                let row = amount_row(reactants@, products@, e);
                let d = dot(row, cq, j as int);
                let t = mul_pair(row[j as int], cq[j as int]);
                assert(same_value(net(before, Seq::empty(), e), d));
                assert(row[j as int] == amount_q(reactants@[j as int], e));
                lemma_amount_den(reactants@[j as int], e);
                lemma_total_den(before, e);
                assert(species_total(Seq::<ReactionSpecies>::empty(), e) == (0int, 1int));
                assert(net(before, Seq::empty(), e).1 > 0) by (nonlinear_arith)
                    requires net(before, Seq::empty(), e).1 == species_total(before, e).1 * 1,
                        species_total(before, e).1 > 0;
                if cj != 0 {
                    let sp = rs_species@.last();
                    lemma_net_push_reactant(before, Seq::empty(), sp, e);
                    assert(species_term(sp, e) == mul_pair((c[j as int], 1int), amount_q(reactants@[j as int], e)));
                    assert(same_value(species_term(sp, e), t)) by (nonlinear_arith)
                        requires species_term(sp, e) == mul_pair((c[j as int], 1int), row[j as int]),
                            t == mul_pair(row[j as int], (c[j as int], 1int));
                    lemma_add_congr(net(before, Seq::empty(), e), d, species_term(sp, e), t);
                } else {
                    assert(t.0 == 0) by (nonlinear_arith)
                        requires t == mul_pair(row[j as int], (c[j as int], 1int)), c[j as int] == 0;
                    assert(t.1 > 0) by (nonlinear_arith)
                        requires t == mul_pair(row[j as int], (c[j as int], 1int)), row[j as int].1 > 0;
                    crate::reaction::lemma_add_zero_term(d, t);
                    lemma_dot_den_pos_row(reactants@, products@, e, cq, j as int);
                    lemma_same_value_trans(net(before, Seq::empty(), e), d, add_pair(d, t));
                }
            }
        }
        j = j + 1;
    }
    assert(reactants@.take(rn as int) =~= reactants@);
    let mut ps_species: Vec<ReactionSpecies> = Vec::new();
    let mut j: usize = 0;
    while j < n - rn
        invariant
            j <= n - rn,
            rn == reactants@.len(),
            n == reactants@.len() + products@.len(),
            out@.len() == n,
            forall|k: int| 0 <= k < n ==> #[trigger] out@[k] as int == c[k],
            cq == Seq::new(n as nat, |k: int| (c[k], 1int)),
            all_wf(reactants@),
            all_wf(products@),
            all_species_wf(rs_species@),
            all_species_wf(ps_species@),
            side_matches(ps_species@, products@.take(j as int), c, rn as int),
            forall|e: Element|
                same_value(
                    #[trigger] net(rs_species@, ps_species@, e),
                    dot(amount_row(reactants@, products@, e), cq, rn + j),
                ),
        decreases n - rn - j,
    {
        let ghost before = ps_species@;
        proof {
            assert(products@.take(j + 1).drop_last() =~= products@.take(j as int));
            assert(products@.take(j + 1)[j as int] == products@[j as int]);
        }
        let cj = out[rn + j];
        if cj != 0 {
            let comp = products[j].duplicate();
            let sp = match ReactionSpecies::new(comp, cj) {
                Ok(sp) => sp,
                Err(e) => {
                    return Err(e);
                },
            };
            ps_species.push(sp);
            proof {
                assert(ps_species@.drop_last() =~= before);
                assert(all_species_wf(ps_species@)) by {
                    assert forall|k: int| 0 <= k < ps_species@.len() implies (#[trigger] ps_species@[k]).wf() by {
                        if k < before.len() {
                            assert(ps_species@[k] == before[k]);
                        } else {
                            assert(products@[j as int].wf());
                        }
                    }
                }
            }
        }
        proof {
            let jj = rn + j;
            assert forall|e: Element|
                same_value(
                    #[trigger] net(rs_species@, ps_species@, e),
                    dot(amount_row(reactants@, products@, e), cq, jj + 1),
                ) by {
                let row = amount_row(reactants@, products@, e);
                let d = dot(row, cq, jj as int);
                let t = mul_pair(row[jj as int], cq[jj as int]);
                assert(same_value(net(rs_species@, before, e), d));
                assert(row[jj as int] == qneg(amount_q(products@[j as int], e)));
                lemma_amount_den(products@[j as int], e);
                lemma_total_den(before, e);
                lemma_total_den(rs_species@, e);
                assert(net(rs_species@, before, e).1 > 0) by (nonlinear_arith)
                    requires net(rs_species@, before, e).1 == species_total(rs_species@, e).1 * species_total(before, e).1,
                        species_total(before, e).1 > 0, species_total(rs_species@, e).1 > 0;
                if cj != 0 {
                    let sp = ps_species@.last();
                    lemma_net_push_product(rs_species@, before, sp, e);
                    assert(species_term(sp, e) == mul_pair((c[jj as int], 1int), amount_q(products@[j as int], e)));
                    assert(same_value(qneg(species_term(sp, e)), t)) by (nonlinear_arith)
                        requires species_term(sp, e) == mul_pair((c[jj as int], 1int), amount_q(products@[j as int], e)),
                            t == mul_pair(qneg(amount_q(products@[j as int], e)), (c[jj as int], 1int));
                    lemma_add_congr(net(rs_species@, before, e), d, qneg(species_term(sp, e)), t);
                } else {
                    assert(t.0 == 0) by (nonlinear_arith)
                        requires t == mul_pair(row[jj as int], (c[jj as int], 1int)), c[jj as int] == 0;
                    assert(t.1 > 0) by (nonlinear_arith)
                        requires t == mul_pair(row[jj as int], (c[jj as int], 1int)), row[jj as int].1 > 0;
                    crate::reaction::lemma_add_zero_term(d, t);
                    lemma_dot_den_pos_row(reactants@, products@, e, cq, jj as int);
                    lemma_same_value_trans(net(rs_species@, before, e), d, add_pair(d, t));
                }
            }
        }
        j = j + 1;
    }
    proof {
        assert(products@.take((n - rn) as int) =~= products@);
        assert forall|e: Element| same_value(
            #[trigger] species_total(rs_species@, e),
            species_total(ps_species@, e),
        ) by {
            let row = amount_row(reactants@, products@, e);
            assert(dot(row, cq, n as int).0 == 0);
            lemma_dot_den_pos_row(reactants@, products@, e, cq, n as int);
            let x = net(rs_species@, ps_species@, e);
            assert(x.0 == 0) by (nonlinear_arith)
                requires x.0 * dot(row, cq, n as int).1 == dot(row, cq, n as int).0 * x.1,
                    dot(row, cq, n as int).0 == 0, dot(row, cq, n as int).1 > 0;
            let a = species_total(rs_species@, e);
            let b = species_total(ps_species@, e);
            assert(x.0 == a.0 * b.1 + (-b.0) * a.1);
            assert(a.0 * b.1 == b.0 * a.1) by (nonlinear_arith)
                requires a.0 * b.1 + (-b.0) * a.1 == 0;
        }
        assert(conserves(rs_species@, ps_species@));
    }
    let ghost srs = rs_species@;
    let ghost sps = ps_species@;
    proof {
        assert(side_matches(srs, reactants@, c, 0));
        assert(side_matches(sps, products@, c, rn as int));
        let nonneg = nonneg_entries(v);
        let nonpos = nonpos_entries(v);
        assert(nonneg || nonpos);
        assert(sc == (if nonpos && !nonneg { (-1int, 1int) } else { (1int, 1int) }));
        assert(scaled_by(v, sc) =~= sv);
        assert(scale_outcome(sv) is Some);
        assert(scale_outcome(scaled_by(v, sc)) == Some(c));
        lemma_coeffs_of(v, rn as int, sc, c);
    }
    match BalancedReaction::new(rs_species, ps_species) {
        Ok(rx) => {
            proof {
                if totals_overflow(reactants@, products@, c) {
                    let (sr, sp) = choose|sr: Seq<ReactionSpecies>, sp: Seq<ReactionSpecies>|
                        #[trigger] side_matches(sr, reactants@, c, 0) && #[trigger] side_matches(
                            sp,
                            products@,
                            c,
                            reactants@.len() as int,
                        ) && exists|e: Element|
                            (mentions(sr, e) || mentions(sp, e)) && !#[trigger] element_check_fits(sr, sp, e);
                    let e = choose|e: Element|
                        (mentions(sr, e) || mentions(sp, e)) && !#[trigger] element_check_fits(sr, sp, e);
                    lemma_side_unique(sr, srs, reactants@, c, 0);
                    lemma_side_unique(sp, sps, products@, c, rn as int);
                    lemma_totals_agree(sr, srs, e);
                    lemma_totals_agree(sp, sps, e);
                    assert(element_check_fits(srs, sps, e));
                    assert(false);
                }
                if forall|k: int| 0 <= k < rn ==> #[trigger] c[k] == 0 {
                    lemma_side_all_zero(srs, reactants@, c, 0);
                }
                if forall|k: int| rn <= k < n ==> #[trigger] c[k] == 0 {
                    assert forall|i: int| rn <= i < rn + products@.len() implies #[trigger] c[i] == 0 by {}
                    lemma_side_all_zero(sps, products@, c, rn as int);
                }
                assert(reaction_with(rx, reactants@, products@, c)) by {
                    assert forall|i: int| 0 <= i < c.len() implies #[trigger] c[i] >= 0 by {}
                    // Some coefficient is nonzero: otherwise both sides would be empty.
                    if !(exists|i: int| 0 <= i < sv.len() && #[trigger] c[i] != 0) {
                        lemma_side_all_zero(rx@.0, reactants@, c, 0);
                    }
                }
                assert(produced_by(rx, reactants@, products@));
            }
            Ok(Some(rx))
        },
        Err(GugenError::EmptyReaction) => {
            proof {
                if srs.len() == 0 {
                    lemma_side_empty(srs, reactants@, c, 0);
                } else {
                    lemma_side_empty(sps, products@, c, rn as int);
                    assert forall|k: int| rn <= k < n implies #[trigger] c[k] == 0 by {}
                }
            }
            Ok(None)
        },
        Err(other) => {
            proof {
                assert(srs.len() > 0 && sps.len() > 0);
                if forall|k: int| 0 <= k < rn ==> #[trigger] c[k] == 0 {
                    lemma_side_all_zero(srs, reactants@, c, 0);
                }
                if forall|k: int| rn <= k < n ==> #[trigger] c[k] == 0 {
                    assert forall|i: int| rn <= i < rn + products@.len() implies #[trigger] c[i] == 0 by {}
                    lemma_side_all_zero(sps, products@, c, rn as int);
                }
                let e = choose|e: Element| (mentions(srs, e) || mentions(sps, e)) && !#[trigger] element_check_fits(srs, sps, e);
                assert(totals_overflow(reactants@, products@, c));
            }
            Err(other)
        },
    }
}

/// With every coefficient zero, the matching side is empty.
proof fn lemma_side_all_zero(species: Seq<ReactionSpecies>, comps: Seq<Composition>, c: Seq<int>, off: int)
    requires
        side_matches(species, comps, c, off),
        forall|i: int| off <= i < off + comps.len() ==> #[trigger] c[i] == 0,
    ensures
        species.len() == 0,
    decreases comps.len(),
{
    if comps.len() > 0 {
        assert(c[off + comps.len() - 1] == 0);
        lemma_side_all_zero(species, comps.drop_last(), c, off);
    }
}

proof fn lemma_dot_den_pos_row(rs: Seq<Composition>, ps: Seq<Composition>, e: Element, cq: Seq<Q>, n: int)
    requires
        all_wf(rs),
        all_wf(ps),
        0 <= n <= rs.len() + ps.len(),
        forall|k: int| 0 <= k < rs.len() + ps.len() ==> (#[trigger] cq[k]).1 == 1,
    ensures
        dot(amount_row(rs, ps, e), cq, n).1 > 0,
{
    lemma_row_dens_pos(rs, ps, e);
    lemma_dot_den_pos(amount_row(rs, ps, e), cq, n);
}

/// Some composition of the list contains `e`.
pub open spec fn comps_mention(cs: Seq<Composition>, e: Element) -> bool {
    exists|i: int| 0 <= i < cs.len() && (#[trigger] cs[i])@.contains_key(e)
}

/// One of the first `i` compositions contains `e`.
pub open spec fn mention_before(cs: Seq<Composition>, i: int, e: Element) -> bool {
    exists|k: int| 0 <= k < i && (#[trigger] cs[k])@.contains_key(e)
}

/// Marks the table index of every element of every composition.
fn mark_present(present: &mut Vec<bool>, comps: &[Composition])
    requires
        old(present)@.len() == 118,
        all_wf(comps@),
    ensures
        final(present)@.len() == 118,
        forall|i: int| 0 <= i < 118 && old(present)@[i] ==> #[trigger] final(present)@[i],
        forall|e: Element| comps_mention(comps@, e) ==> e.index() < 118 && final(present)@[e.index() as int],
        forall|k: int|
            0 <= k < 118 && #[trigger] final(present)@[k] ==> old(present)@[k] || exists|e: Element|
                comps_mention(comps@, e) && e.index() == k,
{
    let mut i: usize = 0;
    while i < comps.len()
        invariant
            i <= comps@.len(),
            present@.len() == 118,
            all_wf(comps@),
            forall|k: int| 0 <= k < 118 && old(present)@[k] ==> #[trigger] present@[k],
            forall|e: Element|
                #[trigger] mention_before(comps@, i as int, e) ==> e.index() < 118
                    && present@[e.index() as int],
            forall|k: int|
                0 <= k < 118 && #[trigger] present@[k] ==> old(present)@[k] || exists|e: Element|
                    mention_before(comps@, i as int, e) && e.index() == k,
        decreases comps@.len() - i,
    {
        let pairs = comps[i].pairs();
        proof {
            assert(comps@[i as int].wf());
            comps@[i as int].lemma_wf();
        }
        let ghost p0 = present@;
        let mut j: usize = 0;
        while j < pairs.len()
            invariant
                j <= pairs@.len(),
                present@.len() == 118,
                pairs@ == comps@[i as int].listing(),
                forall|k: int| 0 <= k < 118 && p0[k] ==> #[trigger] present@[k],
                forall|q: int|
                    0 <= q < j ==> (#[trigger] pairs@[q]).0.index() < 118 && present@[pairs@[q].0.index() as int],
                forall|k: int|
                    0 <= k < 118 && #[trigger] present@[k] ==> p0[k] || exists|q: int|
                        0 <= q < j && (#[trigger] pairs@[q]).0.index() == k,
            decreases pairs@.len() - j,
        {
            let idx = pairs[j].0.index_u8();
            present.set(idx as usize, true);
            j = j + 1;
        }
        proof {
            let c = comps@[i as int];
            assert forall|k: int|
                0 <= k < 118 && #[trigger] present@[k] implies old(present)@[k] || exists|e: Element|
                    mention_before(comps@, i + 1, e) && e.index() == k by {
                if !p0[k] {
                    let q = choose|q: int| 0 <= q < j && (#[trigger] pairs@[q]).0.index() == k;
                    let e = pairs@[q].0;
                    assert(c.listing()[q].0 == e);
                    assert(c@.contains_key(e));
                    assert(mention_before(comps@, i + 1, e));
                } else {
                    if !old(present)@[k] {
                        let e = choose|e: Element| mention_before(comps@, i as int, e) && e.index() == k;
                        let kk = choose|kk: int| 0 <= kk < i && (#[trigger] comps@[kk])@.contains_key(e);
                        assert(mention_before(comps@, i + 1, e));
                    }
                }
            }
            assert forall|e: Element| #[trigger] mention_before(comps@, i + 1, e) implies e.index()
                < 118 && present@[e.index() as int] by {
                let k = choose|k: int| 0 <= k < i + 1 && (#[trigger] comps@[k])@.contains_key(e);
                if k == i {
                    let q = choose|q: int| 0 <= q < c.listing().len() && c.listing()[q].0 == e;
                    assert(pairs@[q].0 == e);
                } else {
                    assert(mention_before(comps@, i as int, e));
                    assert(p0[e.index() as int]);
                }
            }
        }
        i = i + 1;
    }
    proof {
        assert forall|e: Element| comps_mention(comps@, e) implies e.index() < 118
            && present@[e.index() as int] by {
            let k = choose|k: int| 0 <= k < comps@.len() && (#[trigger] comps@[k])@.contains_key(e);
            assert(mention_before(comps@, i as int, e));
        }
        assert forall|k: int|
            0 <= k < 118 && #[trigger] present@[k] implies old(present)@[k] || exists|e: Element|
                comps_mention(comps@, e) && e.index() == k by {
            if !old(present)@[k] {
                let e = choose|e: Element| mention_before(comps@, i as int, e) && e.index() == k;
                let kk = choose|kk: int| 0 <= kk < i && (#[trigger] comps@[kk])@.contains_key(e);
                assert(comps_mention(comps@, e));
            }
        }
    }
}

/// Every element of the reactants and products, once each, in symbol
/// order.
fn collect_elements(reactants: &[Composition], products: &[Composition]) -> (r: Vec<Element>)
    requires
        all_wf(reactants@),
        all_wf(products@),
    ensures
        forall|e: Element|
            comps_mention(reactants@, e) || comps_mention(products@, e) ==> r@.contains(e),
        forall|i: int, j: int| 0 <= i < j < r@.len() ==> r@[i].index() < r@[j].index(),
        forall|q: int|
            0 <= q < r@.len() ==> comps_mention(reactants@, #[trigger] r@[q]) || comps_mention(
                products@,
                r@[q],
            ),
{
    let mut present: Vec<bool> = Vec::new();
    let mut i: usize = 0;
    while i < 118
        invariant
            i <= 118,
            present@.len() == i,
            forall|k: int| 0 <= k < i ==> !(#[trigger] present@[k]),
        decreases 118 - i,
    {
        present.push(false);
        i = i + 1;
    }
    let ghost p0 = present@;
    mark_present(&mut present, reactants);
    let ghost p1 = present@;
    mark_present(&mut present, products);
    proof {
        assert forall|k: int| 0 <= k < 118 && #[trigger] present@[k] implies exists|e: Element|
            (comps_mention(reactants@, e) || comps_mention(products@, e)) && e.index() == k by {
            if !p1[k] {
                let e = choose|e: Element| comps_mention(products@, e) && e.index() == k;
                assert(comps_mention(products@, e) && e.index() == k);
            } else {
                assert(!p0[k]);
                let e = choose|e: Element| comps_mention(reactants@, e) && e.index() == k;
                assert(comps_mention(reactants@, e) && e.index() == k);
            }
        }
    }
    let mut out: Vec<Element> = Vec::new();
    let mut i: usize = 0;
    while i < 118
        invariant
            i <= 118,
            present@.len() == 118,
            forall|k: int| 0 <= k < out@.len() ==> (#[trigger] out@[k]).index() < i,
            forall|a: int, b: int| 0 <= a < b < out@.len() ==> out@[a].index() < out@[b].index(),
            forall|k: int| 0 <= k < i && present@[k] ==> exists|q: int|
                0 <= q < out@.len() && (#[trigger] out@[q]).index() == k,
            forall|k: int| 0 <= k < 118 && #[trigger] present@[k] ==> exists|e: Element|
                (comps_mention(reactants@, e) || comps_mention(products@, e)) && e.index() == k,
            forall|q: int| 0 <= q < out@.len() ==> comps_mention(reactants@, #[trigger] out@[q])
                || comps_mention(products@, out@[q]),
        decreases 118 - i,
    {
        if present[i] {
            let e = Element::from_index(i as u8);
            let ghost o = out@;
            out.push(e);
            proof {
                assert(out@[o.len() as int] == e);
                let e2 = choose|e2: Element|
                    (comps_mention(reactants@, e2) || comps_mention(products@, e2)) && e2.index() == i as int;
                Element::lemma_index_injective(e2, e);
                assert forall|q: int| 0 <= q < out@.len() implies comps_mention(reactants@, #[trigger] out@[q])
                    || comps_mention(products@, out@[q]) by {
                    if q < o.len() {
                        assert(out@[q] == o[q]);
                    }
                }
                assert forall|k: int| 0 <= k < i + 1 && present@[k] implies exists|q: int|
                    0 <= q < out@.len() && (#[trigger] out@[q]).index() == k by {
                    if k == i {
                        assert(out@[o.len() as int].index() == k);
                    } else {
                        let q = choose|q: int| 0 <= q < o.len() && (#[trigger] o[q]).index() == k;
                        assert(out@[q] == o[q]);
                    }
                }
            }
        }
        i = i + 1;
    }
    proof {
        assert forall|e: Element|
            comps_mention(reactants@, e) || comps_mention(products@, e) implies out@.contains(e) by {
            let k = e.index() as int;
            assert(present@[k]);
            let q = choose|q: int| 0 <= q < out@.len() && (#[trigger] out@[q]).index() == k;
            Element::lemma_index_injective(out@[q], e);
        }
    }
    out
}

/// `els` lists every element of the reactants and products once, in
/// periodic-table order.
pub open spec fn element_list(rs: Seq<Composition>, ps: Seq<Composition>, els: Seq<Element>) -> bool {
    &&& forall|i: int, j: int| 0 <= i < j < els.len() ==> els[i].index() < els[j].index()
    &&& forall|e: Element| comps_mention(rs, e) || comps_mention(ps, e) ==> els.contains(e)
    &&& forall|q: int| 0 <= q < els.len() ==> comps_mention(rs, #[trigger] els[q]) || comps_mention(ps, els[q])
}

/// The element x species matrix over the elements `els`.
pub open spec fn species_matrix(rs: Seq<Composition>, ps: Seq<Composition>, els: Seq<Element>) -> Seq<
    Seq<Q>,
> {
    Seq::new(els.len(), |q: int| amount_row(rs, ps, els[q]))
}

/// Column `c` is one of the pivot columns.
pub open spec fn is_pivot(piv: Seq<usize>, c: int) -> bool {
    exists|k: int| 0 <= k < piv.len() && piv[k] == c
}

/// The null-space basis vector of the reduced matrix `m` for free column
/// `f`: 1 there, the negated entry of the pivot's row at each pivot column,
/// 0 elsewhere.
pub open spec fn basis_vector(m: Seq<Seq<Q>>, piv: Seq<usize>, f: int, n: int) -> Seq<Q> {
    Seq::new(
        n as nat,
        |i: int|
            if i == f {
                (1int, 1int)
            } else if is_pivot(piv, i) {
                qneg(m[choose|k: int| 0 <= k < piv.len() && piv[k] == i][f])
            } else {
                (0int, 1int)
            },
    )
}

/// The coefficient vectors of the reactions found among the first `f`
/// columns: one for each free column whose basis vector has coefficients.
pub open spec fn outcomes_upto(m: Seq<Seq<Q>>, piv: Seq<usize>, n: int, rn: int, f: int) -> Seq<
    Seq<int>,
>
    decreases f,
{
    if f <= 0 {
        Seq::empty()
    } else {
        let prev = outcomes_upto(m, piv, n, rn, f - 1);
        if is_pivot(piv, f - 1) {
            prev
        } else {
            match coeffs_of(basis_vector(m, piv, f - 1, n), rn) {
                None => prev,
                Some(c) => prev.push(c),
            }
        }
    }
}

/// Building the reaction of free column `f` overflows: the basis vector
/// has an entry whose negation leaves `i128`, negating the vector fails,
/// or the reaction's element totals leave `i128`.
pub open spec fn step_overflows(
    rs: Seq<Composition>,
    ps: Seq<Composition>,
    m: Seq<Seq<Q>>,
    piv: Seq<usize>,
    f: int,
) -> bool {
    let v = basis_vector(m, piv, f, (rs.len() + ps.len()) as int);
    ||| exists|k: int| 0 <= k < piv.len() && (#[trigger] m[k][f]).0 == i128::MIN
    ||| flip_overflows(v)
    ||| (coeffs_of(v, rs.len() as int) matches Some(c) && totals_overflow(rs, ps, c))
}

/// Some free column's reaction overflows.
pub open spec fn some_step_overflows(
    rs: Seq<Composition>,
    ps: Seq<Composition>,
    m: Seq<Seq<Q>>,
    piv: Seq<usize>,
) -> bool {
    exists|f: int|
        0 <= f < rs.len() + ps.len() && !is_pivot(piv, f) && #[trigger] step_overflows(rs, ps, m, piv, f)
}

/// Two lists sorted by table position with the same members are equal.
proof fn lemma_sorted_same(a: Seq<Element>, b: Seq<Element>)
    requires
        forall|i: int, j: int| 0 <= i < j < a.len() ==> a[i].index() < a[j].index(),
        forall|i: int, j: int| 0 <= i < j < b.len() ==> b[i].index() < b[j].index(),
        forall|e: Element| a.contains(e) <==> b.contains(e),
    ensures
        a == b,
    decreases a.len(),
{
    if a.len() == 0 {
        if b.len() > 0 {
            assert(b.contains(b[0]));
        }
        assert(a =~= b);
    } else if b.len() == 0 {
        assert(a.contains(a[0]));
    } else {
        assert(a.contains(a[0]));
        assert(b.contains(b[0]));
        let j = choose|j: int| 0 <= j < b.len() && b[j] == a[0];
        let i = choose|i: int| 0 <= i < a.len() && a[i] == b[0];
        assert(a[0].index() <= a[i].index());
        assert(b[0].index() <= b[j].index());
        Element::lemma_index_injective(a[0], b[0]);
        let a1 = a.drop_first();
        let b1 = b.drop_first();
        assert forall|e: Element| a1.contains(e) <==> b1.contains(e) by {
            if a1.contains(e) {
                let k = choose|k: int| 0 <= k < a1.len() && a1[k] == e;
                assert(a[k + 1] == e);
                assert(b.contains(e));
                let q = choose|q: int| 0 <= q < b.len() && b[q] == e;
                if q == 0 {
                    assert(a[0].index() < a[k + 1].index());
                }
                assert(b1[q - 1] == e);
            }
            if b1.contains(e) {
                let k = choose|k: int| 0 <= k < b1.len() && b1[k] == e;
                assert(b[k + 1] == e);
                assert(a.contains(e));
                let q = choose|q: int| 0 <= q < a.len() && a[q] == e;
                if q == 0 {
                    assert(b[0].index() < b[k + 1].index());
                }
                assert(a1[q - 1] == e);
            }
        }
        lemma_sorted_same(a1, b1);
        assert(a =~= b) by {
            assert forall|k: int| 0 <= k < a.len() implies a[k] == b[k] by {
                if k > 0 {
                    assert(a[k] == a1[k - 1]);
                    assert(b[k] == b1[k - 1]);
                }
            }
        }
    }
}

/// Every element list of a reaction is the given one.
proof fn lemma_elements_fix(rs: Seq<Composition>, ps: Seq<Composition>, elems: Seq<Element>)
    requires
        element_list(rs, ps, elems),
    ensures
        forall|els: Seq<Element>| #[trigger] element_list(rs, ps, els) ==> els == elems,
{
    assert forall|els: Seq<Element>| #[trigger] element_list(rs, ps, els) implies els == elems by {
        lemma_element_list_unique(rs, ps, els, elems);
    }
}

/// The element list of a reaction is unique.
proof fn lemma_element_list_unique(rs: Seq<Composition>, ps: Seq<Composition>, a: Seq<Element>, b: Seq<Element>)
    requires
        element_list(rs, ps, a),
        element_list(rs, ps, b),
    ensures
        a == b,
{
    assert forall|e: Element| a.contains(e) <==> b.contains(e) by {
        if a.contains(e) {
            let q = choose|q: int| 0 <= q < a.len() && a[q] == e;
            assert(comps_mention(rs, a[q]) || comps_mention(ps, a[q]));
        }
        if b.contains(e) {
            let q = choose|q: int| 0 <= q < b.len() && b[q] == e;
            assert(comps_mention(rs, b[q]) || comps_mention(ps, b[q]));
        }
    }
    lemma_sorted_same(a, b);
}

/// Solves for integer, gcd-normalized coefficients balancing `reactants`
/// against `products`, by exact-rational Gauss-Jordan elimination over the
/// element x species matrix. Returns one reaction for each free column of
/// the reduced matrix whose null-space basis vector has a single sign and
/// a representable minimal integer form ([`outcomes_upto`] over
/// [`rref_of`] of the [`species_matrix`]); an empty result means no such
/// balance exists for this exact species list. `ArithmeticOverflow` exactly
/// when the elimination or the reaction of some free column leaves `i128`
/// ([`some_step_overflows`]).
pub fn balance(reactants: &[Composition], products: &[Composition]) -> (r: Result<
    Vec<BalancedReaction>,
    GugenError,
>)
    requires
        all_wf(reactants@),
        all_wf(products@),
        reactants@.len() + products@.len() <= usize::MAX,
    ensures
        (r matches Err(GugenError::EmptyReaction)) <==> (reactants@.len() == 0
            || products@.len() == 0),
        r is Err ==> (r matches Err(GugenError::EmptyReaction)) || r->Err_0
            == GugenError::ArithmeticOverflow,
        r matches Ok(rs) ==> forall|k: int|
            0 <= k < rs@.len() ==> (#[trigger] rs@[k]).wf() && produced_by(
                rs@[k],
                reactants@,
                products@,
            ),
        forall|els: Seq<Element>|
            #[trigger] element_list(reactants@, products@, els) && reactants@.len() > 0
                && products@.len() > 0 ==> ({
                let a = species_matrix(reactants@, products@, els);
                let n = (reactants@.len() + products@.len()) as int;
                &&& (r is Err <==> (rref_of(a) is None || (rref_of(a) matches Some(mp)
                    && some_step_overflows(reactants@, products@, mp.0, mp.1))))
                &&& (r matches Ok(out) ==> (rref_of(a) matches Some(mp) && out@.len()
                    == outcomes_upto(mp.0, mp.1, n, reactants@.len() as int, n).len() && forall|k: int|
                    0 <= k < out@.len() ==> reaction_with(
                        #[trigger] out@[k],
                        reactants@,
                        products@,
                        outcomes_upto(mp.0, mp.1, n, reactants@.len() as int, n)[k],
                    )))
            }),
{
    if reactants.len() == 0 || products.len() == 0 {
        return Err(GugenError::EmptyReaction);
    }
    let elements = collect_elements(reactants, products);
    let n = reactants.len() + products.len();
    let rn = reactants.len();
    let mut matrix: Vec<Vec<Frac>> = Vec::new();
    let mut k: usize = 0;
    while k < elements.len()
        invariant
            k <= elements@.len(),
            rn == reactants@.len(),
            n == reactants@.len() + products@.len(),
            reactants@.len() > 0,
            products@.len() > 0,
            all_wf(reactants@),
            all_wf(products@),
            matrix@.len() == k,
            forall|q: int|
                0 <= q < k ==> (#[trigger] matrix@[q])@.len() == n && fq(matrix@[q]@)
                    == amount_row(reactants@, products@, elements@[q]) && forall|c: int|
                    0 <= c < n ==> (#[trigger] matrix@[q]@[c]).wf(),
        decreases elements@.len() - k,
    {
        let e = elements[k];
        let mut row: Vec<Frac> = Vec::new();
        let mut j: usize = 0;
        while j < n
            invariant
                j <= n,
                reactants@.len() > 0,
                products@.len() > 0,
                rn == reactants@.len(),
                n == reactants@.len() + products@.len(),
                all_wf(reactants@),
                all_wf(products@),
                row@.len() == j,
                forall|c: int|
                    0 <= c < j ==> (#[trigger] row@[c]).wf() && row@[c]@ == amount_row(
                        reactants@,
                        products@,
                        e,
                    )[c],
            decreases n - j,
        {
            let comp = if j < rn {
                &reactants[j]
            } else {
                &products[j - rn]
            };
            proof {
                assert(comp.wf());
                lemma_amount_den(*comp, e);
                crate::numtheory::lemma_gcd_zero_left(1);
            }
            let amount = match comp.amount_of(e) {
                Some(a) => a,
                None => Frac::zero(),
            };
            let entry = if j < rn {
                amount
            } else {
                match amount.checked_neg() {
                    Ok(x) => x,
                    Err(err) => {
                        proof {
                            comp.lemma_wf();
                            assert(amount@.0 >= 0);
                        }
                        return Err(err);
                    },
                }
            };
            row.push(entry);
            j = j + 1;
        }
        assert(fq(row@) =~= amount_row(reactants@, products@, e));
        matrix.push(row);
        k = k + 1;
    }
    let ghost orig = mview(matrix@);
    proof {
        // Some element occurs, so the matrix has a row.
        let c0 = reactants@[0];
        assert(c0.wf());
        c0.lemma_wf();
        let e0 = c0.listing()[0].0;
        assert(listing_map_has(c0, e0)) by {
            assert(c0@.contains_key(e0));
        }
        assert(comps_mention(reactants@, e0));
        assert(elements@.contains(e0));
        assert(elements@.len() > 0);
        assert forall|q: int| 0 <= q < orig.len() implies #[trigger] orig[q].len() == n by {
            assert(orig[q] == matrix@[q]@);
        }
        assert forall|q: int, c: int| 0 <= q < orig.len() && 0 <= c < n implies (#[trigger] orig[q][c]).wf() by {
            assert(orig[q] == matrix@[q]@);
        }
        assert(matrix_ok(orig, n as int));
        assert(matrix@[0]@.len() == n);
    }
    let ghost a = species_matrix(reactants@, products@, elements@);
    proof {
        assert(qm(orig) =~= a) by {
            assert forall|q: int| 0 <= q < orig.len() implies #[trigger] qm(orig)[q] == a[q] by {
                assert(orig[q] == matrix@[q]@);
            }
        }
        assert(element_list(reactants@, products@, elements@));
        lemma_elements_fix(reactants@, products@, elements@);
    }
    let pivots = match row_reduce(&mut matrix) {
        Ok(p) => p,
        Err(err) => {
            return Err(err);
        },
    };
    let ghost m = mview(matrix@);
    let ghost mq = qm(m);
    let mut results: Vec<BalancedReaction> = Vec::new();
    let mut col: usize = 0;
    while col < n
        invariant
            col <= n,
            reactants@.len() > 0,
            products@.len() > 0,
            rn == reactants@.len(),
            n == reactants@.len() + products@.len(),
            all_wf(reactants@),
            all_wf(products@),
            m == mview(matrix@),
            matrix_ok(m, n as int),
            echelon(m, pivots@, n as int),
            pivots@.len() <= m.len(),
            solutions_preserved(m, orig, n as int),
            orig.len() == elements@.len(),
            forall|q: int| 0 <= q < orig.len() ==> fq(#[trigger] orig[q]) == amount_row(
                reactants@,
                products@,
                elements@[q],
            ),
            forall|e: Element|
                comps_mention(reactants@, e) || comps_mention(products@, e) ==> elements@.contains(e),
            forall|k: int|
                0 <= k < results@.len() ==> (#[trigger] results@[k]).wf() && produced_by(
                    results@[k],
                    reactants@,
                    products@,
                ),
            mq == qm(m),
            rref_of(a) == Some((mq, pivots@)),
            a == species_matrix(reactants@, products@, elements@),
            forall|els: Seq<Element>| #[trigger] element_list(reactants@, products@, els) ==> els == elements@,
            element_list(reactants@, products@, elements@),
            results@.len() == outcomes_upto(mq, pivots@, n as int, rn as int, col as int).len(),
            forall|k: int|
                0 <= k < results@.len() ==> reaction_with(
                    #[trigger] results@[k],
                    reactants@,
                    products@,
                    outcomes_upto(mq, pivots@, n as int, rn as int, col as int)[k],
                ),
            forall|f: int|
                0 <= f < col && !is_pivot(pivots@, f) ==> !#[trigger] step_overflows(
                    reactants@,
                    products@,
                    mq,
                    pivots@,
                    f,
                ),
        decreases n - col,
    {
        let mut is_pivot = false;
        let mut q: usize = 0;
        while q < pivots.len()
            invariant
                q <= pivots@.len(),
                is_pivot == exists|j: int| 0 <= j < q && #[trigger] pivots@[j] == col,
            decreases pivots@.len() - q,
        {
            if pivots[q] == col {
                is_pivot = true;
            }
            q = q + 1;
        }
        let ghost prev = outcomes_upto(mq, pivots@, n as int, rn as int, col as int);
        let ghost bv = basis_vector(mq, pivots@, col as int, n as int);
        assert(is_pivot == crate::balance::is_pivot(pivots@, col as int));
        if !is_pivot {
            let v = match null_vector(&matrix, &pivots, col, n) {
                Ok(v) => v,
                Err(err) => {
                    proof {
                        let k = choose|k: int|
                            0 <= k < pivots@.len() && (#[trigger] mview(matrix@)[k][col as int])@.0
                                == i128::MIN;
                        assert(mq[k][col as int] == m[k][col as int]@);
                        assert(step_overflows(reactants@, products@, mq, pivots@, col as int));
                    }
                    return Err(err);
                },
            };
            proof {
                assert(fq(v@) =~= bv) by {
                    assert forall|i: int| 0 <= i < n implies #[trigger] fq(v@)[i] == bv[i] by {
                        if i != col && crate::balance::is_pivot(pivots@, i) {
                            let k = choose|k: int| 0 <= k < pivots@.len() && pivots@[k] == i;
                            assert(v@[pivots@[k] as int]@ == qneg(m[k][col as int]@));
                            assert(mq[k][col as int] == m[k][col as int]@);
                        }
                    }
                }
                assert(!exists|k: int| 0 <= k < pivots@.len() && (#[trigger] mq[k][col as int]).0 == i128::MIN) by {
                    if exists|k: int| 0 <= k < pivots@.len() && (#[trigger] mq[k][col as int]).0 == i128::MIN {
                        let k = choose|k: int| 0 <= k < pivots@.len() && (#[trigger] mq[k][col as int]).0 == i128::MIN;
                        assert(mq[k][col as int] == m[k][col as int]@);
                        assert(mview(matrix@)[k][col as int]@.0 == i128::MIN);
                    }
                }
            }
            proof {
                let b = fq(v@);
                assert(candidate(b, n as int)) by {
                    assert forall|i: int| 0 <= i < n implies (#[trigger] b[i]).1 > 0 by {
                        assert(v@[i].wf());
                    }
                }
                assert(solves(orig, b, n as int));
                assert forall|e: Element|
                    (#[trigger] dot(amount_row(reactants@, products@, e), fq(v@), v@.len() as int)).0 == 0 by {
                    let row = amount_row(reactants@, products@, e);
                    if comps_mention(reactants@, e) || comps_mention(products@, e) {
                        let q = choose|q: int| 0 <= q < elements@.len() && elements@[q] == e;
                        assert(fq(orig[q]) == row);
                        assert(dot(fq(orig[q]), b, n as int).0 == 0);
                    } else {
                        assert forall|i: int| 0 <= i < n implies (#[trigger] mul_pair(row[i], b[i])).0 == 0 by {
                            if i < rn {
                                assert(!reactants@[i]@.contains_key(e));
                            } else {
                                assert(!products@[i - rn]@.contains_key(e));
                            }
                            assert(row[i].0 == 0);
                            assert(row[i].0 * b[i].0 == 0) by (nonlinear_arith)
                                requires row[i].0 == 0;
                        }
                        lemma_dot_zero_terms(row, b, n as int);
                    }
                }
            }
            match vector_to_reaction(&v, reactants, products) {
                Ok(Some(reaction)) => {
                    let ghost r0 = results@;
                    results.push(reaction);
                    proof {
                        let c = coeffs_of(bv, rn as int)->Some_0;
                        assert(outcomes_upto(mq, pivots@, n as int, rn as int, col + 1) == prev.push(c));
                        assert forall|k: int| 0 <= k < results@.len() implies reaction_with(
                            #[trigger] results@[k],
                            reactants@,
                            products@,
                            prev.push(c)[k],
                        ) by {
                            if k < r0.len() {
                                assert(results@[k] == r0[k]);
                            }
                        }
                        assert forall|k: int| 0 <= k < results@.len() implies (#[trigger] results@[k]).wf()
                            && produced_by(results@[k], reactants@, products@) by {
                            if k < r0.len() {
                                assert(results@[k] == r0[k]);
                            }
                        }
                    }
                },
                Ok(None) => {
                    proof {
                        assert(outcomes_upto(mq, pivots@, n as int, rn as int, col + 1) == prev);
                    }
                },
                Err(e) => {
                    proof {
                        assert(step_overflows(reactants@, products@, mq, pivots@, col as int));
                    }
                    return Err(e);
                },
            }
        } else {
            proof {
                assert(outcomes_upto(mq, pivots@, n as int, rn as int, col + 1) == prev);
            }
        }
        proof {
            assert forall|f: int|
                0 <= f < col + 1 && !crate::balance::is_pivot(pivots@, f) implies !#[trigger] step_overflows(
                    reactants@,
                    products@,
                    mq,
                    pivots@,
                    f,
                ) by {
                if f < col {
                }
            }
        }
        col = col + 1;
    }
    Ok(results)
}

/// The composition's map has `e`.
spec fn listing_map_has(c: Composition, e: Element) -> bool {
    c@.contains_key(e)
}


/// `c` holds the element spelled `sym` with amount `n`.
pub open spec fn has_amount(c: Composition, sym: Seq<char>, n: int) -> bool {
    exists|e: Element| e.spec_symbol() == sym && #[trigger] c@.contains_key(e) && c@[e]@ == (n, 1int)
}

/// Every element of `c` is spelled by one of `syms`.
pub open spec fn only_symbols(c: Composition, syms: Seq<Seq<char>>) -> bool {
    forall|e: Element| #[trigger] c@.contains_key(e) ==> syms.contains(e.spec_symbol())
}

/// The element with symbol `sym`, which must be one.
fn element_named(sym: &str) -> (e: Element)
    requires
        is_element_symbol(sym@),
    ensures
        e.spec_symbol() == sym@,
{
    match Element::new(sym) {
        Ok(e) => e,
        Err(_) => vstd::pervasive::unreached(),
    }
}

/// The whole number `n` as a fraction.
fn whole(n: i128) -> (f: Frac)
    ensures
        f.wf(),
        f@ == (n as int, 1int),
{
    proof {
        lemma_reduce_whole(n as int);
    }
    match Frac::new(n, 1) {
        Ok(f) => f,
        Err(_) => vstd::pervasive::unreached(),
    }
}

/// A composition of positive whole amounts of distinct elements.
fn compound(pairs: Vec<(Element, Frac)>) -> (c: Composition)
    requires
        pairs@.len() > 0,
        forall|i: int| 0 <= i < pairs@.len() ==> (#[trigger] pairs@[i]).1.wf() && pairs@[i].1@.0 > 0,
    ensures
        c.wf(),
        c@ == pairs_map(pairs@),
{
    match Composition::new(pairs) {
        Ok(c) => c,
        Err(_) => vstd::pervasive::unreached(),
    }
}

/// The byproducts a planner may add to a reaction's product side: CO2,
/// H2O, O2, NO2, CO and acetone, (CH3)2CO.
pub fn curated_byproducts() -> (r: Result<Vec<Composition>, GugenError>)
    ensures
        r matches Ok(v) && v@.len() == 6 && (forall|i: int| 0 <= i < 6 ==> (#[trigger] v@[i]).wf())
            && only_symbols(v@[0], seq!["C"@, "O"@]) && has_amount(v@[0], "C"@, 1) && has_amount(v@[0], "O"@, 2)
            && only_symbols(v@[1], seq!["H"@, "O"@]) && has_amount(v@[1], "H"@, 2) && has_amount(v@[1], "O"@, 1)
            && only_symbols(v@[2], seq!["O"@]) && has_amount(v@[2], "O"@, 2)
            && only_symbols(v@[3], seq!["N"@, "O"@]) && has_amount(v@[3], "N"@, 1) && has_amount(v@[3], "O"@, 2)
            && only_symbols(v@[4], seq!["C"@, "O"@]) && has_amount(v@[4], "C"@, 1) && has_amount(v@[4], "O"@, 1)
            && only_symbols(v@[5], seq!["C"@, "H"@, "O"@]) && has_amount(v@[5], "C"@, 3) && has_amount(v@[5], "H"@, 6)
            && has_amount(v@[5], "O"@, 1),
{
    proof {
        reveal_strlit("C");
        reveal_strlit("H");
        reveal_strlit("N");
        reveal_strlit("O");
        assert(symbol_seq(15) == "C"@);
        assert(symbol_seq(41) == "H"@);
        assert(symbol_seq(63) == "N"@);
        assert(symbol_seq(72) == "O"@);
    }
    let c = element_named("C");
    let h = element_named("H");
    let n = element_named("N");
    let o = element_named("O");
    let co2 = compound(vec![(c, whole(1)), (o, whole(2))]);
    let h2o = compound(vec![(h, whole(2)), (o, whole(1))]);
    let o2 = compound(vec![(o, whole(2))]);
    let no2 = compound(vec![(n, whole(1)), (o, whole(2))]);
    let co = compound(vec![(c, whole(1)), (o, whole(1))]);
    let acetone = compound(vec![(c, whole(3)), (h, whole(6)), (o, whole(1))]);
    proof {
        reveal_with_fuel(pairs_map, 4);
        reveal_strlit("C");
        reveal_strlit("H");
        reveal_strlit("N");
        reveal_strlit("O");
        assert(c.spec_symbol()[0] == 'C' && h.spec_symbol()[0] == 'H' && n.spec_symbol()[0] == 'N' && o.spec_symbol()[0] == 'O');
        assert(c != o && h != o && n != o && c != h);
        assert(co2@.contains_key(c) && co2@.contains_key(o) && co2@[c]@ == (1int, 1int) && co2@[o]@ == (2int, 1int));
        assert(h2o@.contains_key(h) && h2o@.contains_key(o) && h2o@[h]@ == (2int, 1int) && h2o@[o]@ == (1int, 1int));
        assert(o2@.contains_key(o) && o2@[o]@ == (2int, 1int));
        assert(no2@.contains_key(n) && no2@.contains_key(o) && no2@[n]@ == (1int, 1int) && no2@[o]@ == (2int, 1int));
        assert(co@.contains_key(c) && co@.contains_key(o) && co@[c]@ == (1int, 1int) && co@[o]@ == (1int, 1int));
        assert(acetone@.contains_key(c) && acetone@.contains_key(h) && acetone@.contains_key(o));
        assert(acetone@[c]@ == (3int, 1int) && acetone@[h]@ == (6int, 1int) && acetone@[o]@ == (1int, 1int));
        assert(has_amount(co2, "C"@, 1) && has_amount(co2, "O"@, 2));
        assert(has_amount(h2o, "H"@, 2) && has_amount(h2o, "O"@, 1));
        assert(has_amount(o2, "O"@, 2));
        assert(has_amount(no2, "N"@, 1) && has_amount(no2, "O"@, 2));
        assert(has_amount(co, "C"@, 1) && has_amount(co, "O"@, 1));
        assert(has_amount(acetone, "C"@, 3) && has_amount(acetone, "H"@, 6) && has_amount(acetone, "O"@, 1));
        assert(seq!["C"@, "O"@].contains("C"@) && seq!["C"@, "O"@].contains("O"@));
        assert(seq!["H"@, "O"@].contains("H"@) && seq!["H"@, "O"@].contains("O"@));
        assert(seq!["O"@][0] == "O"@);
        assert(seq!["O"@].contains("O"@));
        assert(seq!["N"@, "O"@].contains("N"@) && seq!["N"@, "O"@].contains("O"@));
        assert(seq!["C"@, "H"@, "O"@].contains("C"@) && seq!["C"@, "H"@, "O"@].contains("H"@) && seq!["C"@, "H"@, "O"@].contains("O"@));
    }
    let v = vec![co2, h2o, o2, no2, co, acetone];
    Ok(v)
}

} // verus!
