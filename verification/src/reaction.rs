//! Reaction species and balanced reactions. A `BalancedReaction` can only
//! be built when every element's reactant total equals its product total,
//! computed exactly.

use crate::composition::{Composition, Element};
use crate::error::GugenError;
use crate::frac::{add_fits, add_pair, lemma_reduce, lemma_reduce_whole, mul_fits, mul_pair, reduce, same_value, sub_fits, Frac};
use crate::linalg::{lemma_add_congr, lemma_mul_congr, lemma_same_value_trans, qneg, Q};
use vstd::arithmetic::mul::lemma_mul_unary_negation;
use vstd::prelude::*;

verus! {

/// The amount of `e` in `c` as a rational, zero when `e` is absent.
pub open spec fn amount_q(c: Composition, e: Element) -> Q {
    if c@.contains_key(e) {
        c@[e]@
    } else {
        (0, 1)
    }
}

/// One species of a reaction: a composition and its positive integer
/// stoichiometric coefficient.
#[derive(Debug, Clone, PartialEq, Eq)]
pub struct ReactionSpecies {
    pub composition: Composition,
    coefficient: u64,
}

impl ReactionSpecies {
    /// The stoichiometric coefficient.
    pub closed spec fn coeff(self) -> u64 {
        self.coefficient
    }

    /// The species' composition.
    pub closed spec fn comp(self) -> Composition {
        self.composition
    }

    /// A species of a reaction: a well-formed composition, positive count.
    pub open spec fn wf(self) -> bool {
        self.comp().wf() && self.coeff() > 0
    }

    /// Fails with `ZeroCoefficient` exactly when `coefficient` is zero.
    pub fn new(composition: Composition, coefficient: u64) -> (r: Result<ReactionSpecies, GugenError>)
        ensures
            r is Err <==> coefficient == 0,
            r is Err ==> r->Err_0 == GugenError::ZeroCoefficient,
            r is Ok ==> r->Ok_0.comp() == composition
                && r->Ok_0.coeff() == coefficient,
    {
        if coefficient == 0 {
            return Err(GugenError::ZeroCoefficient);
        }
        Ok(ReactionSpecies { composition, coefficient })
    }

    /// The species' composition.
    pub fn composition_ref(&self) -> (r: &Composition)
        ensures
            *r == self.comp(),
    {
        &self.composition
    }

    pub fn coefficient(&self) -> (r: u64)
        ensures
            r == self.coeff(),
    {
        self.coefficient
    }
}

/// `coefficient * amount of e` for one species.
pub open spec fn species_term(s: ReactionSpecies, e: Element) -> Q {
    mul_pair((s.coeff() as int, 1), amount_q(s.comp(), e))
}

/// Exact total amount of `e` over a list of species.
pub open spec fn species_total(s: Seq<ReactionSpecies>, e: Element) -> Q
    decreases s.len(),
{
    if s.len() == 0 {
        (0, 1)
    } else {
        add_pair(species_total(s.drop_last(), e), species_term(s.last(), e))
    }
}

/// Every species is well formed.
pub open spec fn all_species_wf(s: Seq<ReactionSpecies>) -> bool {
    forall|i: int| 0 <= i < s.len() ==> (#[trigger] s[i]).wf()
}

/// Element conservation: for every element the reactant total equals the
/// product total.
pub open spec fn conserves(reactants: Seq<ReactionSpecies>, products: Seq<ReactionSpecies>) -> bool {
    forall|e: Element|
        same_value(#[trigger] species_total(reactants, e), species_total(products, e))
}

/// Some species of the list contains `e`.
pub open spec fn mentions(s: Seq<ReactionSpecies>, e: Element) -> bool {
    exists|i: int| 0 <= i < s.len() && (#[trigger] s[i]).comp()@.contains_key(e)
}

pub proof fn lemma_amount_den(c: Composition, e: Element)
    requires
        c.wf(),
    ensures
        amount_q(c, e).1 > 0,
        c@.contains_key(e) ==> c@[e].wf() && amount_q(c, e) == c@[e]@,
{
    c.lemma_wf();
}

/// Totals have positive denominators.
pub proof fn lemma_total_den(s: Seq<ReactionSpecies>, e: Element)
    requires
        all_species_wf(s),
    ensures
        species_total(s, e).1 > 0,
    decreases s.len(),
{
    if s.len() > 0 {
        lemma_total_den(s.drop_last(), e);
        assert(s.last().wf());
        lemma_amount_den(s.last().composition, e);
        let d = species_total(s.drop_last(), e).1;
        let a = amount_q(s.last().composition, e).1;
        assert(d * (1 * a) > 0) by (nonlinear_arith)
            requires d > 0, a > 0;
    }
}

/// A total over species none of which contains `e` is zero.
pub proof fn lemma_total_absent(s: Seq<ReactionSpecies>, e: Element)
    requires
        all_species_wf(s),
        !mentions(s, e),
    ensures
        species_total(s, e).0 == 0,
    decreases s.len(),
{
    if s.len() > 0 {
        let t = s.drop_last();
        assert(!mentions(t, e)) by {
            if mentions(t, e) {
                let i = choose|i: int| 0 <= i < t.len() && (#[trigger] t[i]).composition@.contains_key(e);
                assert(s[i] == t[i]);
            }
        }
        assert(s[s.len() - 1] == s.last());
        lemma_total_absent(t, e);
        lemma_total_den(t, e);
        let x = species_total(t, e);
        let a = amount_q(s.last().composition, e);
        assert(a.0 == 0);
        assert(x.0 * (1 * a.1) + (s.last().coeff() as int * a.0) * x.1 == 0) by (nonlinear_arith)
            requires x.0 == 0, a.0 == 0;
    }
}

/// Adding a zero-valued term keeps the value.
pub proof fn lemma_add_zero_term(x: Q, z: Q)
    requires
        z.0 == 0,
        z.1 > 0,
    ensures
        same_value(add_pair(x, z), x),
{
    assert((x.0 * z.1 + z.0 * x.1) * x.1 == x.0 * (x.1 * z.1)) by (nonlinear_arith)
        requires z.0 == 0;
}

/// `-(a + b) == -a + -b`.
pub proof fn lemma_neg_add(a: Q, b: Q)
    ensures
        qneg(add_pair(a, b)) == add_pair(qneg(a), qneg(b)),
{
    lemma_mul_unary_negation(a.0, b.1);
    lemma_mul_unary_negation(b.0, a.1);
}

/// The total of `e` over `s` as checked `i128` arithmetic reaches it, each
/// term `coefficient * amount` and each partial sum in lowest terms; `None`
/// when a product or a partial sum leaves `i128`.
pub open spec fn checked_total(s: Seq<ReactionSpecies>, e: Element) -> Option<Q>
    decreases s.len(),
{
    if s.len() == 0 {
        Some((0, 1))
    } else {
        match checked_total(s.drop_last(), e) {
            None => None,
            Some(t) => if s.last().comp()@.contains_key(e) {
                let c = (s.last().coeff() as int, 1int);
                let a = s.last().comp()@[e]@;
                let term = reduce(mul_pair(c, a).0, mul_pair(c, a).1);
                if mul_fits(c, a) && add_fits(t, term) {
                    Some(reduce(add_pair(t, term).0, add_pair(t, term).1))
                } else {
                    None
                }
            } else {
                Some(t)
            },
        }
    }
}

/// A failure on a prefix is a failure of the whole total.
proof fn lemma_checked_total_prefix(s: Seq<ReactionSpecies>, e: Element, n: int)
    requires
        0 <= n <= s.len(),
        checked_total(s.take(n), e) is None,
    ensures
        checked_total(s, e) is None,
    decreases s.len() - n,
{
    if n < s.len() {
        assert(s.take(n + 1).drop_last() =~= s.take(n));
        lemma_checked_total_prefix(s, e, n + 1);
    } else {
        assert(s.take(n) =~= s);
    }
}

/// With no species holding `e`, the checked total is zero.
proof fn lemma_checked_total_absent(s: Seq<ReactionSpecies>, e: Element)
    requires
        !mentions(s, e),
    ensures
        checked_total(s, e) == Some((0int, 1int)),
    decreases s.len(),
{
    if s.len() > 0 {
        let t = s.drop_last();
        assert(!mentions(t, e)) by {
            if mentions(t, e) {
                let i = choose|i: int| 0 <= i < t.len() && (#[trigger] t[i]).comp()@.contains_key(e);
                assert(s[i] == t[i]);
            }
        }
        assert(s[s.len() - 1] == s.last());
        lemma_checked_total_absent(t, e);
    }
}

/// Checking that element `e` balances stays within `i128`: both checked
/// totals exist and their difference fits.
pub open spec fn element_check_fits(r: Seq<ReactionSpecies>, p: Seq<ReactionSpecies>, e: Element) -> bool {
    checked_total(r, e) matches Some(a) && checked_total(p, e) matches Some(b) && sub_fits(a, b)
}

/// Exact total of `e` over `species`; `ArithmeticOverflow` exactly when
/// [`checked_total`] has none.
fn element_total(species: &Vec<ReactionSpecies>, e: Element) -> (r: Result<Frac, GugenError>)
    requires
        all_species_wf(species@),
    ensures
        r is Err ==> r->Err_0 == GugenError::ArithmeticOverflow,
        r is Err <==> checked_total(species@, e) is None,
        r is Ok ==> r->Ok_0.wf() && same_value(r->Ok_0@, species_total(species@, e)),
        r matches Ok(x) ==> checked_total(species@, e) == Some(x@),
{
    let mut acc = Frac::zero();
    let mut i: usize = 0;
    while i < species.len()
        invariant
            i <= species@.len(),
            all_species_wf(species@),
            acc.wf(),
            same_value(acc@, species_total(species@.take(i as int), e)),
            checked_total(species@.take(i as int), e) == Some(acc@),
        decreases species@.len() - i,
    {
        let ghost prev = species@.take(i as int);
        let ghost next = species@.take(i + 1);
        proof {
            assert(next.drop_last() =~= prev);
            assert(next.last() == species@[i as int]);
            assert(species@[i as int].wf());
            lemma_amount_den(species@[i as int].composition, e);
        }
        let s = &species[i];
        match s.composition.amount_of(e) {
            Some(a) => {
                let c = match Frac::new(s.coefficient as i128, 1) {
                    Ok(x) => x,
                    Err(err) => return Err(err),
                };
                proof {
                    lemma_reduce(s.coefficient as int, 1);
                    lemma_reduce_whole(s.coefficient as int);
                    assert(c@ == (s.coeff() as int, 1int));
                    assert(same_value(c@, (s.coeff() as int, 1int)));
                }
                let term = match c.checked_mul(a) {
                    Ok(x) => x,
                    Err(err) => {
                        proof {
                            lemma_checked_total_prefix(species@, e, i + 1);
                        }
                        return Err(err);
                    },
                };
                let sum = match acc.checked_add(term) {
                    Ok(x) => x,
                    Err(err) => {
                        proof {
                            lemma_checked_total_prefix(species@, e, i + 1);
                        }
                        return Err(err);
                    },
                };
                proof {
                    let t_exact = species_term(species@[i as int], e);
                    let m = mul_pair(c@, a@);
                    assert(m.1 > 0) by (nonlinear_arith)
                        requires m.1 == c@.1 * a@.1, c@.1 > 0, a@.1 > 0;
                    lemma_reduce(m.0, m.1);
                    lemma_mul_congr(c@, (s.coeff() as int, 1int), a@, a@);
                    lemma_same_value_trans(term@, m, t_exact);
                    let ad = add_pair(acc@, term@);
                    assert(ad.1 > 0) by (nonlinear_arith)
                        requires ad.1 == acc@.1 * term@.1, acc@.1 > 0, term@.1 > 0;
                    lemma_reduce(ad.0, ad.1);
                    lemma_add_congr(acc@, species_total(prev, e), term@, t_exact);
                    lemma_same_value_trans(sum@, ad, species_total(next, e));
                }
                acc = sum;
            },
            None => {
                proof {
                    let t_exact = species_term(species@[i as int], e);
                    let cf = species@[i as int].coeff() as int;
                    assert(cf * 0 == 0 && 1int * 1 == 1) by (nonlinear_arith);
                    assert(t_exact.0 == 0);
                    lemma_add_zero_term(species_total(prev, e), t_exact);
                    assert(all_species_wf(prev));
                    lemma_total_den(prev, e);
                    let ad = species_total(next, e);
                    assert(ad.1 > 0) by (nonlinear_arith)
                        requires ad.1 == species_total(prev, e).1 * t_exact.1, species_total(prev, e).1 > 0, t_exact.1 > 0;
                    assert(same_value(species_total(prev, e), ad));
                    lemma_same_value_trans(acc@, species_total(prev, e), ad);
                }
            },
        }
        i = i + 1;
    }
    proof {
        assert(species@.take(i as int) =~= species@);
    }
    Ok(acc)
}

/// Every element that occurs in any of the species, possibly repeated.
fn mentioned_elements(a: &Vec<ReactionSpecies>, b: &Vec<ReactionSpecies>) -> (r: Vec<Element>)
    requires
        all_species_wf(a@),
        all_species_wf(b@),
    ensures
        forall|e: Element| mentions(a@, e) || mentions(b@, e) ==> r@.contains(e),
{
    let mut out: Vec<Element> = Vec::new();
    let mut side: usize = 0;
    while side < 2
        invariant
            side <= 2,
            all_species_wf(a@),
            all_species_wf(b@),
            forall|e: Element| mentions(a@, e) && side >= 1 ==> out@.contains(e),
            forall|e: Element| mentions(b@, e) && side >= 2 ==> out@.contains(e),
        decreases 2 - side,
    {
        let list = if side == 0 { a } else { b };
        let ghost before = out@;
        let mut i: usize = 0;
        while i < list.len()
            invariant
                i <= list@.len(),
                all_species_wf(list@),
                forall|x: Element| before.contains(x) ==> out@.contains(x),
                forall|e: Element|
                    #![trigger out@.contains(e)]
                    (exists|k: int| 0 <= k < i && (#[trigger] list@[k]).composition@.contains_key(e))
                        ==> out@.contains(e),
            decreases list@.len() - i,
        {
            let ghost out0 = out@;
            let pairs = list[i].composition.pairs();
            proof {
                assert(list@[i as int].wf());
                list@[i as int].composition.lemma_wf();
            }
            let mut j: usize = 0;
            while j < pairs.len()
                invariant
                    j <= pairs@.len(),
                    pairs@ == list@[i as int].composition.listing(),
                    forall|x: Element| out0.contains(x) ==> out@.contains(x),
                    forall|k: int| 0 <= k < j ==> out@.contains(#[trigger] pairs@[k].0),
                decreases pairs@.len() - j,
            {
                let ghost o = out@;
                out.push(pairs[j].0);
                proof {
                    assert forall|x: Element| o.contains(x) implies out@.contains(x) by {
                        let k = choose|k: int| 0 <= k < o.len() && o[k] == x;
                        assert(out@[k] == x);
                    }
                    assert(out@[o.len() as int] == pairs@[j as int].0);
                }
                j = j + 1;
            }
            proof {
                let c = list@[i as int].composition;
                assert forall|e: Element|
                    (exists|k: int| 0 <= k < i + 1 && (#[trigger] list@[k]).composition@.contains_key(e))
                        implies out@.contains(e) by {
                    let k = choose|k: int| 0 <= k < i + 1 && (#[trigger] list@[k]).composition@.contains_key(e);
                    if k == i {
                        let q = choose|q: int| 0 <= q < c.listing().len() && c.listing()[q].0 == e;
                        assert(pairs@[q].0 == e);
                    } else {
                        assert(out0.contains(e));
                    }
                }
            }
            i = i + 1;
        }
        proof {
            assert forall|e: Element| mentions(list@, e) implies out@.contains(e) by {
                let k = choose|k: int| 0 <= k < list@.len() && (#[trigger] list@[k]).composition@.contains_key(e);
                assert(exists|k: int| 0 <= k < i && (#[trigger] list@[k]).composition@.contains_key(e));
            }
        }
        side = side + 1;
    }
    out
}

/// A chemically balanced reaction: both sides non-empty, every coefficient
/// positive, every element conserved exactly.
#[derive(Debug, Clone, PartialEq, Eq)]
pub struct BalancedReaction {
    reactants: Vec<ReactionSpecies>,
    products: Vec<ReactionSpecies>,
}

impl View for BalancedReaction {
    type V = (Seq<ReactionSpecies>, Seq<ReactionSpecies>);

    closed spec fn view(&self) -> (Seq<ReactionSpecies>, Seq<ReactionSpecies>) {
        (self.reactants@, self.products@)
    }
}

impl BalancedReaction {
    /// Both sides non-empty, every species well formed, elements conserved.
    pub closed spec fn wf(self) -> bool {
        &&& self.reactants@.len() > 0
        &&& self.products@.len() > 0
        &&& all_species_wf(self.reactants@)
        &&& all_species_wf(self.products@)
        &&& conserves(self.reactants@, self.products@)
    }

    /// Every well-formed reaction conserves each element exactly and has a
    /// non-empty reactant side and a non-empty product side.
    pub proof fn lemma_conserves(self)
        requires
            self.wf(),
        ensures
            self@.0.len() > 0,
            self@.1.len() > 0,
            all_species_wf(self@.0),
            all_species_wf(self@.1),
            conserves(self@.0, self@.1),
    {
    }

    /// Validates a reaction. `EmptyReaction` exactly when a side is empty;
    /// `UnbalancedReaction` only when some element's totals differ;
    /// `ArithmeticOverflow` when checking an element leaves `i128`. Succeeds
    /// exactly when both sides are non-empty, every element is conserved and
    /// every element's check stays within `i128` ([`element_check_fits`]).
    pub fn new(reactants: Vec<ReactionSpecies>, products: Vec<ReactionSpecies>) -> (r: Result<
        BalancedReaction,
        GugenError,
    >)
        requires
            all_species_wf(reactants@),
            all_species_wf(products@),
        ensures
            (r matches Err(GugenError::EmptyReaction)) <==> (reactants@.len() == 0
                || products@.len() == 0),
            r matches Err(GugenError::UnbalancedReaction { .. }) ==> !conserves(
                reactants@,
                products@,
            ),
            r is Err ==> (r matches Err(GugenError::EmptyReaction)) || (r matches Err(
                GugenError::UnbalancedReaction { .. },
            )) || r->Err_0 == GugenError::ArithmeticOverflow,
            r is Ok <==> (reactants@.len() > 0 && products@.len() > 0 && conserves(reactants@, products@)
                && forall|e: Element|
                (mentions(reactants@, e) || mentions(products@, e)) ==> #[trigger] element_check_fits(
                    reactants@,
                    products@,
                    e,
                )),
            r is Ok ==> r->Ok_0.wf() && r->Ok_0@ == (reactants@, products@),
    {
        if reactants.len() == 0 || products.len() == 0 {
            return Err(GugenError::EmptyReaction);
        }
        let elements = mentioned_elements(&reactants, &products);
        let mut k: usize = 0;
        while k < elements.len()
            invariant
                k <= elements@.len(),
                reactants@.len() > 0,
                products@.len() > 0,
                all_species_wf(reactants@),
                all_species_wf(products@),
                forall|e: Element|
                    mentions(reactants@, e) || mentions(products@, e) ==> elements@.contains(e),
                forall|j: int|
                    0 <= j < k ==> same_value(
                        #[trigger] species_total(reactants@, elements@[j]),
                        species_total(products@, elements@[j]),
                    ),
                forall|j: int| 0 <= j < k ==> element_check_fits(reactants@, products@, #[trigger] elements@[j]),
            decreases elements@.len() - k,
        {
            let e = elements[k];
            proof {
                if !mentions(reactants@, e) && !mentions(products@, e) {
                    lemma_checked_total_absent(reactants@, e);
                    lemma_checked_total_absent(products@, e);
                    assert(element_check_fits(reactants@, products@, e));
                }
            }
            let tr = match element_total(&reactants, e) {
                Ok(x) => x,
                Err(err) => {
                    assert(!element_check_fits(reactants@, products@, e));
                    assert(mentions(reactants@, e) || mentions(products@, e));
                    return Err(err);
                },
            };
            let tp = match element_total(&products, e) {
                Ok(x) => x,
                Err(err) => {
                    assert(!element_check_fits(reactants@, products@, e));
                    assert(mentions(reactants@, e) || mentions(products@, e));
                    return Err(err);
                },
            };
            let diff = match tr.checked_sub(tp) {
                Ok(x) => x,
                Err(err) => {
                    assert(!sub_fits(tr@, tp@));
                    assert(!element_check_fits(reactants@, products@, e));
                    assert(mentions(reactants@, e) || mentions(products@, e));
                    return Err(err);
                },
            };
            assert(element_check_fits(reactants@, products@, e));
            proof {
                let a = species_total(reactants@, e);
                let b = species_total(products@, e);
                lemma_total_den(reactants@, e);
                lemma_total_den(products@, e);
                let d = add_pair(tr@, qneg(tp@));
                assert(d.1 > 0) by (nonlinear_arith)
                    requires d.1 == tr@.1 * tp@.1, tr@.1 > 0, tp@.1 > 0;
                lemma_reduce(d.0, d.1);
                // diff is zero exactly when tr and tp have the same value.
                assert(diff@.0 == 0 <==> d.0 == 0) by (nonlinear_arith)
                    requires diff@.0 * d.1 == d.0 * diff@.1, diff@.1 > 0, d.1 > 0;
                assert(same_value(tr@, tp@) <==> d.0 == 0) by (nonlinear_arith)
                    requires d.0 == tr@.0 * tp@.1 + (-tp@.0) * tr@.1;
                if same_value(tr@, tp@) {
                    lemma_same_value_trans(a, tr@, tp@);
                    lemma_same_value_trans(a, tp@, b);
                } else {
                    if same_value(a, b) {
                        lemma_same_value_trans(tr@, a, b);
                        lemma_same_value_trans(tr@, b, tp@);
                    }
                }
            }
            if !diff.is_zero() {
                return Err(GugenError::UnbalancedReaction { element: String::from_str(e.symbol()) });
            }
            k = k + 1;
        }
        proof {
            assert forall|e: Element|
                (mentions(reactants@, e) || mentions(products@, e)) implies #[trigger] element_check_fits(
                    reactants@,
                    products@,
                    e,
                ) by {
                let j = choose|j: int| 0 <= j < elements@.len() && elements@[j] == e;
                assert(element_check_fits(reactants@, products@, elements@[j]));
            }
            assert forall|e: Element| same_value(
                #[trigger] species_total(reactants@, e),
                species_total(products@, e),
            ) by {
                if mentions(reactants@, e) || mentions(products@, e) {
                    let j = choose|j: int| 0 <= j < elements@.len() && elements@[j] == e;
                    assert(same_value(species_total(reactants@, elements@[j]), species_total(products@, elements@[j])));
                } else {
                    lemma_total_absent(reactants@, e);
                    lemma_total_absent(products@, e);
                }
            }
        }
        Ok(BalancedReaction { reactants, products })
    }

    pub fn reactants(&self) -> (r: &[ReactionSpecies])
        ensures
            r@ == self@.0,
    {
        self.reactants.as_slice()
    }

    pub fn products(&self) -> (r: &[ReactionSpecies])
        ensures
            r@ == self@.1,
    {
        self.products.as_slice()
    }
}

} // verus!
