use gugen::commercial_catalog::formula::parse_formula;
use gugen::commercial_catalog::model::CommercialCatalogError;
use gugen::composition::{Composition, Element};
use gugen::frac::Frac;

fn composition(pairs: &[(&str, i128, i128)]) -> Composition {
    let amounts: Vec<(Element, Frac)> = pairs
        .iter()
        .map(|&(sym, n, d)| (Element::new(sym).unwrap(), Frac::new(n, d).unwrap()))
        .collect();
    Composition::new(amounts).unwrap()
}

#[test]
fn parses_a_simple_formula() {
    assert_eq!(
        parse_formula("Fe2O3").unwrap(),
        composition(&[("Fe", 2, 1), ("O", 3, 1)])
    );
}

#[test]
fn parses_a_parenthesized_group() {
    assert_eq!(
        parse_formula("Ca(OH)2").unwrap(),
        composition(&[("Ca", 1, 1), ("O", 2, 1), ("H", 2, 1)])
    );
}

#[test]
fn parses_decimal_subscripts() {
    assert_eq!(
        parse_formula("La0.67Sr0.33MnO3").unwrap(),
        composition(&[("La", 67, 100), ("Sr", 33, 100), ("Mn", 1, 1), ("O", 3, 1)])
    );
}

#[test]
fn parses_a_hydrate_with_middle_dot_separator() {
    assert_eq!(
        parse_formula("CuSO4\u{B7}5H2O").unwrap(),
        composition(&[("Cu", 1, 1), ("S", 1, 1), ("O", 9, 1), ("H", 10, 1)])
    );
}

#[test]
fn a_hydrate_multiplier_of_one_may_be_omitted() {
    assert_eq!(
        parse_formula("CaSO4\u{B7}H2O").unwrap(),
        composition(&[("Ca", 1, 1), ("S", 1, 1), ("O", 5, 1), ("H", 2, 1)])
    );
}

#[test]
fn anhydrous_and_hydrate_forms_are_different_compositions() {
    let anhydrous = parse_formula("CaSO4").unwrap();
    let hydrate = parse_formula("CaSO4\u{B7}2H2O").unwrap();
    assert_ne!(anhydrous, hydrate);
}

#[test]
fn rejects_a_variable_hydrate() {
    assert!(parse_formula("CuSO4\u{B7}xH2O").is_err());
}

#[test]
fn rejects_an_asterisk_hydrate_separator() {
    assert!(parse_formula("CuSO4*5H2O").is_err());
}

#[test]
fn ascii_dot_is_consumed_as_a_decimal_point_not_a_hydrate_separator() {
    let ascii_dot = parse_formula("CaSO4.2H2O").unwrap();
    let hydrate = parse_formula("CaSO4\u{B7}2H2O").unwrap();
    assert_ne!(ascii_dot, hydrate);
    assert_eq!(
        ascii_dot,
        composition(&[("Ca", 1, 1), ("S", 1, 1), ("O", 52, 10), ("H", 2, 1)])
    );
}

#[test]
fn rejects_an_out_of_grammar_string() {
    assert!(parse_formula("not a formula!").is_err());
}

#[test]
fn rejects_an_unbalanced_paren() {
    assert!(parse_formula("Ca(OH2").is_err());
    assert!(parse_formula("CaOH)2").is_err());
}

#[test]
fn rejects_an_unknown_element_symbol() {
    assert!(parse_formula("Xx2O3").is_err());
}

#[test]
fn parses_nested_parenthesized_groups() {
    assert_eq!(
        parse_formula("Ca((OH)2)3").unwrap(),
        composition(&[("Ca", 1, 1), ("O", 6, 1), ("H", 6, 1)])
    );
}

#[test]
fn rejects_formula_nesting_beyond_the_supported_depth_without_crashing() {
    let formula = format!("{}Fe{}", "(".repeat(10_000), ")".repeat(10_000));
    assert!(parse_formula(&formula).is_err());
}

#[test]
fn rejects_a_zero_subscript() {
    assert!(parse_formula("Fe0O3").is_err());
}

#[test]
fn rejects_a_negative_or_signed_subscript() {
    assert!(parse_formula("Fe-2O3").is_err());
    assert!(parse_formula("Fe+2O3").is_err());
}

#[test]
fn rejects_trailing_garbage_after_an_otherwise_valid_formula() {
    assert!(parse_formula("Fe2O3$").is_err());
    assert!(parse_formula("Fe2O3 extra text").is_err());
}

#[test]
fn sums_an_element_appearing_both_inside_and_outside_a_group() {
    assert_eq!(
        parse_formula("Fe(Fe)2O3").unwrap(),
        composition(&[("Fe", 3, 1), ("O", 3, 1)])
    );
}

#[test]
fn leading_and_trailing_whitespace_is_trimmed_but_internal_whitespace_is_rejected() {
    assert_eq!(
        parse_formula("  Fe2O3  ").unwrap(),
        parse_formula("Fe2O3").unwrap()
    );
    assert!(parse_formula("Fe2 O3").is_err());
}

#[test]
fn rejects_a_cyrillic_lookalike_element_symbol() {
    assert!(parse_formula("F\u{0435}2O3").is_err());
}

#[test]
fn rejects_a_unicode_lookalike_hydrate_separator() {
    assert!(parse_formula("CuSO4\u{2022}5H2O").is_err());
}

#[test]
fn nesting_at_the_depth_limit_parses_and_one_deeper_fails() {
    let at_limit = format!("{}Fe{}", "(".repeat(64), ")".repeat(64));
    assert_eq!(
        parse_formula(&at_limit).unwrap(),
        composition(&[("Fe", 1, 1)])
    );
    let too_deep = format!("{}Fe{}", "(".repeat(65), ")".repeat(65));
    assert!(parse_formula(&too_deep).is_err());
}

#[test]
fn a_parse_error_carries_the_formula() {
    match parse_formula("Fe2O3$") {
        Err(CommercialCatalogError::FormulaParseError { formula, .. }) => {
            assert_eq!(formula, "Fe2O3$")
        }
        other => panic!("unexpected result {:?}", other),
    }
}

#[test]
fn rejects_empty_and_two_separators() {
    assert!(parse_formula("").is_err());
    assert!(parse_formula("   ").is_err());
    assert!(parse_formula("CuSO4\u{B7}5H2O\u{B7}H2O").is_err());
    assert!(parse_formula("()").is_err());
}

#[test]
fn a_group_multiplier_may_be_decimal() {
    assert_eq!(
        parse_formula("(OH)1.5").unwrap(),
        composition(&[("O", 3, 2), ("H", 3, 2)])
    );
}

#[test]
fn an_oversized_subscript_is_an_error_not_a_panic() {
    assert!(parse_formula("Fe99999999999999999999999999999999999999999").is_err());
}

#[test]
fn a_subscript_that_fits_i128_is_accepted_and_one_past_it_is_refused() {
    let fits = parse_formula("H170141183460469231731687303715884105727").unwrap();
    assert_eq!(
        fits.amount_of(Element::new("H").unwrap()),
        Some(Frac::new(i128::MAX, 1).unwrap())
    );
    assert!(matches!(
        parse_formula("H170141183460469231731687303715884105728"),
        Err(CommercialCatalogError::FormulaParseError { .. })
    ));
}

#[test]
fn a_sum_past_i128_is_refused_and_the_same_total_below_it_is_not() {
    assert!(parse_formula("H170141183460469231731687303715884105727H1").is_err());
    assert!(parse_formula("H170141183460469231731687303715884105726H1").is_ok());
}
