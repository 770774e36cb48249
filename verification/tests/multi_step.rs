use gugen::composition::{Composition, Element};
use gugen::frac::Frac;
use gugen::multi_step::{RouteError, SynthesisRoute};
use gugen::reaction::{BalancedReaction, ReactionSpecies};

fn composition(pairs: &[(&str, i128)]) -> Composition {
    Composition::new(
        pairs
            .iter()
            .map(|&(sym, n)| (Element::new(sym).unwrap(), Frac::new(n, 1).unwrap()))
            .collect(),
    )
    .unwrap()
}

fn simple_reaction(reactant: &[(&str, i128)], product: &[(&str, i128)]) -> BalancedReaction {
    BalancedReaction::new(
        vec![ReactionSpecies::new(composition(reactant), 1).unwrap()],
        vec![ReactionSpecies::new(composition(product), 1).unwrap()],
    )
    .unwrap()
}

#[test]
fn synthesis_route_rejects_empty_stages() {
    let target = composition(&[("Fe", 1)]);
    let err = SynthesisRoute::new(Vec::new(), &[], &target).unwrap_err();
    assert_eq!(err, RouteError::EmptyRoute);
}

#[test]
fn synthesis_route_rejects_a_final_stage_that_does_not_produce_the_target() {
    let stage = simple_reaction(&[("Fe", 1)], &[("Fe", 1)]);
    let target = composition(&[("Li", 1)]);
    let err = SynthesisRoute::new(vec![stage], &[composition(&[("Fe", 1)])], &target).unwrap_err();
    assert_eq!(err, RouteError::FinalStageMissingTarget);
}

#[test]
fn synthesis_route_rejects_a_stage_with_an_unexplained_reactant() {
    let stage_one = simple_reaction(&[("Fe", 1)], &[("Fe", 1)]);
    let stage_two = simple_reaction(&[("Li", 1)], &[("Li", 1)]);
    let target = composition(&[("Li", 1)]);
    let err = SynthesisRoute::new(
        vec![stage_one, stage_two],
        &[composition(&[("Fe", 1)])],
        &target,
    )
    .unwrap_err();
    assert_eq!(
        err,
        RouteError::UnexplainedReactant {
            composition: composition(&[("Li", 1)]),
            stage_index: 1,
        }
    );
}

#[test]
fn a_connected_two_stage_route_is_accepted_and_keeps_its_stages() {
    let stage_one = simple_reaction(&[("Fe", 1)], &[("Fe", 1)]);
    let stage_two = simple_reaction(&[("Fe", 1)], &[("Fe", 1)]);
    let target = composition(&[("Fe", 1)]);
    let route = SynthesisRoute::new(
        vec![stage_one.clone(), stage_two],
        &[composition(&[("Fe", 1)])],
        &target,
    )
    .unwrap();
    assert_eq!(route.stages().len(), 2);
    assert_eq!(route.stages()[0], stage_one);
    assert_eq!(route.final_reaction().products()[0].composition, target);
}
