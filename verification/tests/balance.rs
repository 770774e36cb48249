use gugen::balance::{balance, curated_byproducts, scale_to_integers};
use gugen::composition::{Composition, Element};
use gugen::error::GugenError;
use gugen::frac::Frac;
use gugen::reaction::{BalancedReaction, ReactionSpecies};

fn element(symbol: &str) -> Element {
    Element::new(symbol).unwrap()
}

fn composition(pairs: &[(&str, i128)]) -> Composition {
    Composition::new(
        pairs
            .iter()
            .map(|&(sym, amt)| (element(sym), Frac::new(amt, 1).unwrap()))
            .collect(),
    )
    .unwrap()
}

fn coeff_of(species: &[ReactionSpecies], c: &Composition) -> u64 {
    species.iter().find(|s| s.composition == *c).unwrap().coefficient()
}

#[test]
fn simple_one_to_one_reaction() {
    let reactants = vec![composition(&[("Ba", 1), ("O", 1)]), composition(&[("Ti", 1), ("O", 2)])];
    let products = vec![composition(&[("Ba", 1), ("Ti", 1), ("O", 3)])];
    let results = balance(&reactants, &products).unwrap();
    assert_eq!(results.len(), 1);
    let r = &results[0];
    assert_eq!(r.reactants().len(), 2);
    assert_eq!(r.products().len(), 1);
    assert!(r.reactants().iter().all(|s| s.coefficient() == 1));
    assert!(r.products().iter().all(|s| s.coefficient() == 1));
}

#[test]
fn carbonate_decomposes_to_oxide_plus_co2() {
    let reactants = vec![composition(&[("Ba", 1), ("C", 1), ("O", 3)])];
    let products = vec![composition(&[("Ba", 1), ("O", 1)]), composition(&[("C", 1), ("O", 2)])];
    let results = balance(&reactants, &products).unwrap();
    assert_eq!(results.len(), 1);
    let r = &results[0];
    assert_eq!(r.reactants()[0].coefficient(), 1);
    assert_eq!(r.products().len(), 2);
    assert!(r.products().iter().all(|s| s.coefficient() == 1));
}

#[test]
fn nitrate_decomposes_to_oxide_plus_no2_and_o2() {
    let reactants = vec![composition(&[("Ba", 1), ("N", 2), ("O", 6)])];
    let bao = composition(&[("Ba", 1), ("O", 1)]);
    let no2 = composition(&[("N", 1), ("O", 2)]);
    let o2 = composition(&[("O", 2)]);
    let products = vec![bao.clone(), no2.clone(), o2.clone()];
    let results = balance(&reactants, &products).unwrap();
    assert_eq!(results.len(), 1);
    let r = &results[0];
    assert_eq!(r.reactants()[0].coefficient(), 2);
    assert_eq!(coeff_of(r.products(), &bao), 2);
    assert_eq!(coeff_of(r.products(), &no2), 4);
    assert_eq!(coeff_of(r.products(), &o2), 1);
}

#[test]
fn oxalate_decomposes_to_oxide_plus_co2_and_co() {
    let reactants = vec![composition(&[("Fe", 1), ("C", 2), ("O", 4)])];
    let feo = composition(&[("Fe", 1), ("O", 1)]);
    let co2 = composition(&[("C", 1), ("O", 2)]);
    let co = composition(&[("C", 1), ("O", 1)]);
    let products = vec![feo.clone(), co2.clone(), co.clone()];
    let results = balance(&reactants, &products).unwrap();
    assert_eq!(results.len(), 1);
    let r = &results[0];
    assert_eq!(r.reactants()[0].coefficient(), 1);
    assert_eq!(coeff_of(r.products(), &feo), 1);
    assert_eq!(coeff_of(r.products(), &co2), 1);
    assert_eq!(coeff_of(r.products(), &co), 1);
}

#[test]
fn acetate_decomposes_to_oxide_plus_acetone_and_co2() {
    let reactants = vec![composition(&[("Ba", 1), ("C", 4), ("H", 6), ("O", 4)])];
    let bao = composition(&[("Ba", 1), ("O", 1)]);
    let acetone = composition(&[("C", 3), ("H", 6), ("O", 1)]);
    let co2 = composition(&[("C", 1), ("O", 2)]);
    let products = vec![bao.clone(), acetone.clone(), co2.clone()];
    let results = balance(&reactants, &products).unwrap();
    assert_eq!(results.len(), 1);
    let r = &results[0];
    assert_eq!(r.reactants()[0].coefficient(), 1);
    assert_eq!(coeff_of(r.products(), &bao), 1);
    assert_eq!(coeff_of(r.products(), &acetone), 1);
    assert_eq!(coeff_of(r.products(), &co2), 1);
}

#[test]
fn offering_every_curated_byproduct_at_once_can_introduce_real_ambiguity_co_does_here() {
    let reactants = vec![composition(&[("Ba", 1), ("C", 1), ("O", 3)]), composition(&[("Ti", 1), ("O", 2)])];
    let target = composition(&[("Ba", 1), ("Ti", 1), ("O", 3)]);
    let co2 = composition(&[("C", 1), ("O", 2)]);
    let h2o = composition(&[("H", 2), ("O", 1)]);
    let o2 = composition(&[("O", 2)]);
    let no2 = composition(&[("N", 1), ("O", 2)]);
    let co = composition(&[("C", 1), ("O", 1)]);
    let acetone = composition(&[("C", 3), ("H", 6), ("O", 1)]);
    let targeted = balance(&reactants, &[target.clone(), co2.clone()]).unwrap();
    assert_eq!(targeted.len(), 1, "targeted subset {{target, CO2}} must balance");
    let everything = balance(&reactants, &[target, co2, h2o, o2, no2, co, acetone]).unwrap();
    assert_eq!(everything.len(), 2);
    assert!(everything.contains(&targeted[0]), "the canonical, search-found answer must still be among the results");
}

#[test]
fn offering_every_curated_byproduct_at_once_can_introduce_more_ambiguity_once_hydrogen_and_carbon_coexist_acetone_does_there()
{
    let reactants = vec![
        composition(&[("Ba", 1), ("O", 2), ("H", 2)]),
        composition(&[("Ba", 1), ("C", 1), ("O", 3)]),
        composition(&[("Ti", 1), ("O", 2)]),
    ];
    let target = composition(&[("Ba", 2), ("Ti", 1), ("O", 4)]);
    let co2 = composition(&[("C", 1), ("O", 2)]);
    let h2o = composition(&[("H", 2), ("O", 1)]);
    let o2 = composition(&[("O", 2)]);
    let no2 = composition(&[("N", 1), ("O", 2)]);
    let co = composition(&[("C", 1), ("O", 1)]);
    let acetone = composition(&[("C", 3), ("H", 6), ("O", 1)]);
    let smallest_subset = balance(&reactants, &[target.clone(), co2.clone()]).unwrap();
    assert_eq!(smallest_subset.len(), 1);
    let everything = balance(&reactants, &[target, co2, h2o, o2, no2, co, acetone]).unwrap();
    assert_eq!(everything.len(), 4);
    assert!(everything.contains(&smallest_subset[0]));
}

#[test]
fn oxygen_as_byproduct() {
    let reactants = vec![composition(&[("Ag", 2), ("O", 1)])];
    let products = vec![composition(&[("Ag", 1)]), composition(&[("O", 2)])];
    let results = balance(&reactants, &products).unwrap();
    assert_eq!(results.len(), 1);
    let r = &results[0];
    assert_eq!(r.reactants()[0].coefficient(), 2);
    let ag = r.products().iter().find(|s| s.composition.amount_of(element("Ag")).is_some()).unwrap();
    let o2 = r.products().iter().find(|s| s.composition.amount_of(element("O")).is_some()).unwrap();
    assert_eq!(ag.coefficient(), 4);
    assert_eq!(o2.coefficient(), 1);
}

#[test]
fn oxygen_as_reactant() {
    let reactants = vec![composition(&[("Fe", 1)]), composition(&[("O", 2)])];
    let products = vec![composition(&[("Fe", 2), ("O", 3)])];
    let results = balance(&reactants, &products).unwrap();
    assert_eq!(results.len(), 1);
    let r = &results[0];
    let fe = r.reactants().iter().find(|s| s.composition.amount_of(element("Fe")).is_some()).unwrap();
    let o2 = r.reactants().iter().find(|s| s.composition.amount_of(element("O")).is_some()).unwrap();
    assert_eq!(fe.coefficient(), 4);
    assert_eq!(o2.coefficient(), 3);
    assert_eq!(r.products()[0].coefficient(), 2);
}

#[test]
fn multiple_precursors() {
    let reactants = vec![composition(&[("Li", 2), ("O", 2), ("H", 2)]), composition(&[("C", 1), ("O", 2)])];
    let products = vec![composition(&[("Li", 2), ("C", 1), ("O", 3)]), composition(&[("H", 2), ("O", 1)])];
    let results = balance(&reactants, &products).unwrap();
    assert_eq!(results.len(), 1);
    assert!(results[0].reactants().iter().all(|s| s.coefficient() == 1));
    assert!(results[0].products().iter().all(|s| s.coefficient() == 1));
}

#[test]
fn no_solution_for_disjoint_elements() {
    let reactants = vec![composition(&[("Fe", 1)])];
    let products = vec![composition(&[("Na", 1), ("Cl", 1)])];
    let results = balance(&reactants, &products).unwrap();
    assert!(results.is_empty());
}

#[test]
fn multiple_solutions_for_iron_oxide_family() {
    let reactants = vec![composition(&[("Fe", 1)]), composition(&[("O", 2)])];
    let products = vec![
        composition(&[("Fe", 1), ("O", 1)]),
        composition(&[("Fe", 2), ("O", 3)]),
        composition(&[("Fe", 3), ("O", 4)]),
    ];
    let results = balance(&reactants, &products).unwrap();
    assert_eq!(results.len(), 3, "expected one independent balance per iron oxide");
    for r in &results {
        assert_eq!(r.products().len(), 1);
        assert!(r.reactants().iter().all(|s| s.coefficient() > 0));
    }
}

#[test]
fn coefficients_are_gcd_normalized() {
    let reactants = vec![composition(&[("H", 2)]), composition(&[("O", 2)])];
    let products = vec![composition(&[("H", 2), ("O", 1)])];
    let results = balance(&reactants, &products).unwrap();
    assert_eq!(results.len(), 1);
    let r = &results[0];
    let h2 = r.reactants().iter().find(|s| s.composition.amount_of(element("H")).is_some()).unwrap();
    let o2 = r.reactants().iter().find(|s| s.composition.amount_of(element("O")).is_some()).unwrap();
    assert_eq!(h2.coefficient(), 2);
    assert_eq!(o2.coefficient(), 1);
    assert_eq!(r.products()[0].coefficient(), 2);
}

#[test]
fn element_conservation_holds() {
    let reactants = vec![composition(&[("Ba", 1), ("O", 1)]), composition(&[("Ti", 1), ("O", 2)])];
    let products = vec![composition(&[("Ba", 1), ("Ti", 1), ("O", 3)])];
    let results = balance(&reactants, &products).unwrap();
    let r = &results[0];
    for el in [element("Ba"), element("Ti"), element("O")] {
        let total = |side: &[ReactionSpecies]| -> i128 {
            side.iter()
                .map(|s| {
                    let a = s.composition.amount_of(el).unwrap_or(Frac::zero());
                    assert_eq!(a.denominator(), 1);
                    a.numerator() * s.coefficient() as i128
                })
                .sum()
        };
        assert_eq!(total(r.reactants()), total(r.products()), "element {} unbalanced", el.symbol());
    }
}

#[test]
fn permutation_invariance() {
    let reactants_a = vec![composition(&[("Ba", 1), ("O", 1)]), composition(&[("Ti", 1), ("O", 2)])];
    let reactants_b = vec![composition(&[("Ti", 1), ("O", 2)]), composition(&[("Ba", 1), ("O", 1)])];
    let products = vec![composition(&[("Ba", 1), ("Ti", 1), ("O", 3)])];
    let results_a = balance(&reactants_a, &products).unwrap();
    let results_b = balance(&reactants_b, &products).unwrap();
    assert_eq!(results_a.len(), 1);
    assert_eq!(results_b.len(), 1);
    let total_a: u64 = results_a[0].reactants().iter().map(|s| s.coefficient()).sum();
    let total_b: u64 = results_b[0].reactants().iter().map(|s| s.coefficient()).sum();
    assert_eq!(total_a, total_b);
}

#[test]
fn large_but_representable_coefficients() {
    let reactants = vec![composition(&[("Na", 3)]), composition(&[("K", 97)])];
    let products = vec![composition(&[("Na", 3), ("K", 97)])];
    let results = balance(&reactants, &products).unwrap();
    assert_eq!(results.len(), 1);
    let r = &results[0];
    let na = r.reactants().iter().find(|s| s.composition.amount_of(element("Na")).is_some()).unwrap();
    let k = r.reactants().iter().find(|s| s.composition.amount_of(element("K")).is_some()).unwrap();
    assert_eq!(na.coefficient(), 1);
    assert_eq!(k.coefficient(), 1);
    assert_eq!(r.products()[0].coefficient(), 1);
}

#[test]
fn rejects_empty_reactant_or_product_list() {
    let comp = composition(&[("Fe", 1)]);
    assert_eq!(balance(&[], std::slice::from_ref(&comp)), Err(GugenError::EmptyReaction));
    assert_eq!(balance(&[comp], &[]), Err(GugenError::EmptyReaction));
}

#[test]
fn scale_to_integers_reports_denominator_overflow_as_no_solution_for_that_candidate() {
    let huge_a = Frac::new(1, i128::MAX / 2).unwrap();
    let huge_b = Frac::new(1, (i128::MAX / 2) - 1).unwrap();
    let result = scale_to_integers(&[huge_a, huge_b]).unwrap();
    assert!(result.is_none(), "LCM of two near-i128::MAX denominators must overflow, not panic");
}

#[test]
fn scale_to_integers_reports_multiply_overflow_as_no_solution_not_an_error() {
    let huge_numerator = Frac::new(i128::MAX, 1).unwrap();
    let denominator_two = Frac::new(1, 2).unwrap();
    let result = scale_to_integers(&[huge_numerator, denominator_two]);
    assert!(matches!(result, Ok(None)), "multiply step must overflow as Ok(None): {result:?}");
}

#[test]
fn scale_to_integers_divides_out_the_common_factor() {
    let v = [Frac::new(1, 2).unwrap(), Frac::new(3, 4).unwrap(), Frac::zero()];
    assert_eq!(scale_to_integers(&v).unwrap(), Some(vec![2, 3, 0]));
    let w = [Frac::new(4, 1).unwrap(), Frac::new(6, 1).unwrap()];
    assert_eq!(scale_to_integers(&w).unwrap(), Some(vec![2, 3]));
    assert_eq!(scale_to_integers(&[Frac::zero(), Frac::zero()]).unwrap(), Some(vec![0, 0]));
}

#[test]
fn scale_to_integers_reports_a_result_beyond_u64_as_no_solution() {
    let v = [Frac::new(1i128 << 70, 1).unwrap(), Frac::new(1, 1).unwrap()];
    assert_eq!(scale_to_integers(&v).unwrap(), None);
}

#[test]
fn balanced_reaction_rejects_an_unbalanced_or_empty_side() {
    let fe = composition(&[("Fe", 1), ("O", 1)]);
    let fe2o3 = composition(&[("Fe", 2), ("O", 3)]);
    let unbalanced = BalancedReaction::new(
        vec![ReactionSpecies::new(fe.clone(), 1).unwrap()],
        vec![ReactionSpecies::new(fe2o3.clone(), 1).unwrap()],
    );
    assert!(matches!(unbalanced, Err(GugenError::UnbalancedReaction { .. })));
    assert_eq!(
        BalancedReaction::new(vec![], vec![ReactionSpecies::new(fe2o3, 1).unwrap()]),
        Err(GugenError::EmptyReaction)
    );
    assert_eq!(ReactionSpecies::new(fe, 0), Err(GugenError::ZeroCoefficient));
}

#[test]
fn a_fractional_amount_balances_exactly() {
    // La0.5Sr0.5O + 0.25 O2 style: half-integer amounts balance exactly.
    let half = Frac::new(1, 2).unwrap();
    let one = Frac::new(1, 1).unwrap();
    let lao = Composition::new(vec![(element("La"), half), (element("O"), one)]).unwrap();
    let la = Composition::new(vec![(element("La"), one)]).unwrap();
    let o2 = Composition::new(vec![(element("O"), Frac::new(2, 1).unwrap())]).unwrap();
    let results = balance(&[la, o2], &[lao]).unwrap();
    assert_eq!(results.len(), 1);
    let r = &results[0];
    let coeffs: Vec<u64> = r.reactants().iter().map(|s| s.coefficient()).collect();
    assert_eq!(coeffs, vec![1, 1]);
    assert_eq!(r.products()[0].coefficient(), 2);
}

#[test]
fn curated_byproducts_are_the_six_small_molecules() {
    let byproducts = curated_byproducts().unwrap();
    let expected = vec![
        composition(&[("C", 1), ("O", 2)]),
        composition(&[("H", 2), ("O", 1)]),
        composition(&[("O", 2)]),
        composition(&[("N", 1), ("O", 2)]),
        composition(&[("C", 1), ("O", 1)]),
        composition(&[("C", 3), ("H", 6), ("O", 1)]),
    ];
    assert_eq!(byproducts, expected);
}
