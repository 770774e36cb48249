//! Multi-step synthesis routes: a sequence of balanced reactions in which
//! every reactant is a base precursor or a product of an earlier stage.

use crate::composition::Composition;
use crate::error::GugenError;
use crate::reaction::{all_species_wf, BalancedReaction, ReactionSpecies};
use vstd::prelude::*;

verus! {

/// Why a sequence of reactions is not a route.
#[derive(Debug, Clone, PartialEq, Eq)]
pub enum RouteError {
    EmptyRoute,
    FinalStageMissingTarget,
    UnexplainedReactant { composition: Composition, stage_index: usize },
    Search(GugenError),
}

/// Some species of the list has exactly the composition `c`.
pub open spec fn lists_composition(species: Seq<ReactionSpecies>, c: Composition) -> bool {
    exists|i: int| 0 <= i < species.len() && (#[trigger] species[i]).comp().listing() == c.listing()
}

/// `c` is a base precursor or a product of a stage before `s`.
pub open spec fn explained(
    stages: Seq<BalancedReaction>,
    base: Seq<Composition>,
    s: int,
    c: Composition,
) -> bool {
    (exists|i: int| 0 <= i < base.len() && (#[trigger] base[i]).listing() == c.listing()) || exists|
        t: int,
    |
        0 <= t < s && lists_composition((#[trigger] stages[t])@.1, c)
}

/// Every reactant of stage `s` is explained.
pub open spec fn stage_connected(stages: Seq<BalancedReaction>, base: Seq<Composition>, s: int) -> bool {
    forall|k: int|
        0 <= k < stages[s]@.0.len() ==> explained(stages, base, s, (#[trigger] stages[s]@.0[k]).comp())
}

/// An ordered sequence of balanced reactions forming a connected route to
/// a target.
#[derive(Debug, PartialEq, Eq)]
pub struct SynthesisRoute {
    stages: Vec<BalancedReaction>,
}

impl View for SynthesisRoute {
    type V = Seq<BalancedReaction>;

    closed spec fn view(&self) -> Seq<BalancedReaction> {
        self.stages@
    }
}

impl SynthesisRoute {
    #[verifier::type_invariant]
    spec fn nonempty(self) -> bool {
        self.stages@.len() > 0
    }

    /// Checks, in order: `stages` is non-empty; the final stage's products
    /// include `target`; every reactant of every stage is a base precursor
    /// or a product of a strictly earlier stage. Element conservation
    /// within each stage is already guaranteed by `BalancedReaction`.
    pub fn new(
        stages: Vec<BalancedReaction>,
        base_precursors: &[Composition],
        target: &Composition,
    ) -> (r: Result<SynthesisRoute, RouteError>)
        requires
            forall|i: int| 0 <= i < stages@.len() ==> (#[trigger] stages@[i]).wf(),
            forall|i: int| 0 <= i < base_precursors@.len() ==> (#[trigger] base_precursors@[i]).wf(),
            target.wf(),
        ensures
            (r matches Err(RouteError::EmptyRoute)) <==> stages@.len() == 0,
            (r matches Err(RouteError::FinalStageMissingTarget)) <==> (stages@.len() > 0
                && !lists_composition(stages@.last()@.1, *target)),
            r matches Err(RouteError::UnexplainedReactant { composition, stage_index }) ==> {
                &&& stages@.len() > 0
                &&& lists_composition(stages@.last()@.1, *target)
                &&& stage_index < stages@.len()
                &&& !stage_connected(stages@, base_precursors@, stage_index as int)
                &&& !explained(stages@, base_precursors@, stage_index as int, composition)
                &&& forall|s: int| 0 <= s < stage_index ==> stage_connected(stages@, base_precursors@, s)
                &&& exists|k: int|
                    0 <= k < stages@[stage_index as int]@.0.len()
                        && (#[trigger] stages@[stage_index as int]@.0[k]).comp().listing() == composition.listing()
                        && forall|q: int|
                        0 <= q < k ==> explained(stages@, base_precursors@, stage_index as int, (#[trigger] stages@[stage_index as int]@.0[q]).comp())
            },
            r is Ok <==> (stages@.len() > 0 && lists_composition(stages@.last()@.1, *target)
                && forall|s: int|
                0 <= s < stages@.len() ==> stage_connected(stages@, base_precursors@, s)),
            r matches Ok(route) ==> route@ == stages@,
            !(r matches Err(RouteError::Search(_))),
    {
        let n = stages.len();
        if n == 0 {
            return Err(RouteError::EmptyRoute);
        }
        let last = &stages[n - 1];
        proof {
            assert forall|q: int| 0 <= q < stages@.len() implies all_species_wf((#[trigger] stages@[q])@.0)
                && all_species_wf(stages@[q]@.1) by {
                stages@[q].lemma_conserves();
            }
        }
        let products = last.products();
        let mut found = false;
        let mut i: usize = 0;
        while i < products.len()
            invariant
                i <= products@.len(),
                n == stages@.len(),
                n > 0,
                products@ == stages@[n - 1]@.1,
                all_species_wf(products@),
                target.wf(),
                found == exists|k: int| 0 <= k < i && (#[trigger] products@[k]).comp().listing() == target.listing(),
            decreases products@.len() - i,
        {
            if listing_eq(&products[i].composition_ref(), target) {
                found = true;
            }
            i = i + 1;
        }
        if !found {
            return Err(RouteError::FinalStageMissingTarget);
        }
        let mut s: usize = 0;
        while s < n
            invariant
                s <= n,
                forall|q: int| 0 <= q < stages@.len() ==> all_species_wf((#[trigger] stages@[q])@.0) && all_species_wf(stages@[q]@.1),
                forall|q: int| 0 <= q < base_precursors@.len() ==> (#[trigger] base_precursors@[q]).wf(),
                target.wf(),
                n == stages@.len(),
                n > 0,
                lists_composition(stages@.last()@.1, *target),

                forall|q: int| 0 <= q < s ==> stage_connected(stages@, base_precursors@, q),
            decreases n - s,
        {
            let reactants = stages[s].reactants();
            assert(all_species_wf(reactants@));
            let mut k: usize = 0;
            while k < reactants.len()
                invariant
                    k <= reactants@.len(),
                    s < n,
                    forall|q: int| 0 <= q < s ==> stage_connected(stages@, base_precursors@, q),
                    forall|q: int| 0 <= q < stages@.len() ==> all_species_wf((#[trigger] stages@[q])@.0) && all_species_wf(stages@[q]@.1),
                    forall|q: int| 0 <= q < base_precursors@.len() ==> (#[trigger] base_precursors@[q]).wf(),
                    target.wf(),
                    n == stages@.len(),
                    n > 0,
                    lists_composition(stages@.last()@.1, *target),

                    reactants@ == stages@[s as int]@.0,
                    forall|q: int| 0 <= q < k ==> explained(stages@, base_precursors@, s as int, (#[trigger] reactants@[q]).comp()),
                decreases reactants@.len() - k,
            {
                let c = reactants[k].composition_ref();
                proof {
                    assert(reactants@[k as int].wf());
                }
                let mut ok = false;
                let mut b: usize = 0;
                while b < base_precursors.len() && !ok
                    invariant
                        b <= base_precursors@.len(),
                        c.wf(),
                        forall|q: int| 0 <= q < base_precursors@.len() ==> (#[trigger] base_precursors@[q]).wf(),
                        ok ==> exists|i: int| 0 <= i < base_precursors@.len() && (#[trigger] base_precursors@[i]).listing() == c.listing(),
                        !ok ==> forall|i: int| 0 <= i < b ==> (#[trigger] base_precursors@[i]).listing() != c.listing(),
                    decreases base_precursors@.len() - b,
                {
                    if listing_eq(&base_precursors[b], c) {
                        ok = true;
                    }
                    b = b + 1;
                }
                let mut t: usize = 0;
                while t < s && !ok
                    invariant
                        t <= s,
                        s < n,
                        c.wf(),
                        forall|q: int| 0 <= q < stages@.len() ==> all_species_wf((#[trigger] stages@[q])@.0) && all_species_wf(stages@[q]@.1),
                        forall|q: int| 0 <= q < base_precursors@.len() ==> (#[trigger] base_precursors@[q]).wf(),
                        target.wf(),
                        n == stages@.len(),
                        n > 0,
                        lists_composition(stages@.last()@.1, *target),

                        ok ==> explained(stages@, base_precursors@, s as int, *c),
                        !ok ==> forall|i: int| 0 <= i < base_precursors@.len() ==> (#[trigger] base_precursors@[i]).listing() != c.listing(),
                        !ok ==> forall|q: int| 0 <= q < t ==> !lists_composition((#[trigger] stages@[q])@.1, *c),
                    decreases s - t,
                {
                    let ps = stages[t].products();
                    assert(all_species_wf(ps@));
                    let mut j: usize = 0;
                    while j < ps.len() && !ok
                        invariant
                            j <= ps@.len(),
                            t < s,
                            s < n,
                            c.wf(),
                            all_species_wf(ps@),
                            forall|q: int| 0 <= q < stages@.len() ==> all_species_wf((#[trigger] stages@[q])@.0) && all_species_wf(stages@[q]@.1),
                            forall|q: int| 0 <= q < base_precursors@.len() ==> (#[trigger] base_precursors@[q]).wf(),
                            target.wf(),
                            n == stages@.len(),
                            n > 0,
                            lists_composition(stages@.last()@.1, *target),

                            ps@ == stages@[t as int]@.1,
                            ok ==> lists_composition(stages@[t as int]@.1, *c),
                            !ok ==> forall|q: int| 0 <= q < j ==> (#[trigger] ps@[q]).comp().listing() != c.listing(),
                        decreases ps@.len() - j,
                    {
                        if listing_eq(ps[j].composition_ref(), c) {
                            ok = true;
                        }
                        j = j + 1;
                    }
                    t = t + 1;
                }
                if !ok {
                    proof {
                        assert(!explained(stages@, base_precursors@, s as int, *c));
                        assert(!stage_connected(stages@, base_precursors@, s as int)) by {
                            assert(reactants@[k as int].comp() == *c);
                        }
                    }
                    let composition = c.duplicate();
                    proof {
                        assert(!explained(stages@, base_precursors@, s as int, composition));
                        assert(reactants@[k as int].comp() == *c);
                        assert(stages@[s as int]@.0[k as int].comp().listing() == composition.listing());
                    }
                    return Err(RouteError::UnexplainedReactant { composition, stage_index: s });
                }
                k = k + 1;
            }
            s = s + 1;
        }
        Ok(SynthesisRoute { stages })
    }

    pub fn stages(&self) -> (r: &[BalancedReaction])
        ensures
            r@ == self@,
    {
        self.stages.as_slice()
    }

    /// The stage whose products include the target: always the last.
    pub fn final_reaction(&self) -> (r: &BalancedReaction)
        ensures
            self@.len() > 0,
            *r == self@.last(),
    {
        proof {
            use_type_invariant(self);
        }
        &self.stages[self.stages.len() - 1]
    }
}

/// The two compositions have the same listing.
fn listing_eq(a: &Composition, b: &Composition) -> (r: bool)
    requires
        a.wf(),
        b.wf(),
    ensures
        r == (a.listing() == b.listing()),
{
    a.same_as(b)
}

} // verus!
