use gugen::commercial_catalog::formula::parse_formula;
use gugen::commercial_catalog::matching::canonical_ratio_key;
use gugen::composition::{Composition, Element};
use gugen::frac::Frac;

fn element(symbol: &str) -> Element {
    Element::new(symbol).unwrap()
}

fn key(formula: &str) -> Option<Vec<(Element, i128)>> {
    canonical_ratio_key(&parse_formula(formula).unwrap())
}

#[test]
fn composition_eq_itself_stays_literal_even_though_commercial_matching_does_not() {
    let fe2o3 = parse_formula("Fe2O3").unwrap();
    let fe4o6 = parse_formula("Fe4O6").unwrap();
    assert_ne!(fe2o3, fe4o6);
}

#[test]
fn canonical_ratio_key_reduces_fe2o3_and_fe4o6_to_the_same_key() {
    assert_eq!(key("Fe2O3").unwrap(), key("Fe4O6").unwrap());
    assert_eq!(
        key("Fe2O3").unwrap(),
        vec![(element("Fe"), 2), (element("O"), 3)]
    );
}

#[test]
fn canonical_ratio_key_reduces_al2o3_and_al4o6_to_the_same_key() {
    assert_eq!(key("Al2O3").unwrap(), key("Al4O6").unwrap());
}

#[test]
fn canonical_ratio_key_matches_fractional_equivalent_compositions() {
    assert_eq!(
        key("La0.5Sr0.5MnO3").unwrap(),
        key("La1Sr1Mn2O6").unwrap()
    );
    assert_eq!(
        key("La0.5Sr0.5MnO3").unwrap(),
        vec![
            (element("La"), 1),
            (element("Mn"), 2),
            (element("O"), 6),
            (element("Sr"), 1)
        ]
    );
}

#[test]
fn canonical_ratio_key_does_not_match_a_genuinely_different_ratio() {
    assert_ne!(key("FeO").unwrap(), key("Fe2O3").unwrap());
}

#[test]
fn canonical_ratio_key_has_no_key_for_a_single_element() {
    assert!(key("O2").is_none());
    assert!(key("O3").is_none());
}

#[test]
fn canonical_ratio_key_does_not_match_hydrate_vs_anhydrous() {
    assert_ne!(key("CuSO4").unwrap(), key("CuSO4\u{B7}5H2O").unwrap());
}

#[test]
fn canonical_ratio_key_is_deterministic() {
    let fe2o3 = parse_formula("Fe2O3").unwrap();
    let key_a = canonical_ratio_key(&fe2o3).unwrap();
    let key_b = canonical_ratio_key(&fe2o3).unwrap();
    assert_eq!(key_a, key_b);
    let reordered = Composition::new(vec![
        (element("O"), Frac::new(3, 1).unwrap()),
        (element("Fe"), Frac::new(2, 1).unwrap()),
    ])
    .unwrap();
    assert_eq!(canonical_ratio_key(&reordered).unwrap(), key_a);
}

#[test]
fn canonical_ratio_key_gives_none_when_the_reduction_overflows() {
    let huge = Composition::new(vec![
        (element("Fe"), Frac::new(1, i128::MAX / 2).unwrap()),
        (element("O"), Frac::new(1, i128::MAX / 2 - 1).unwrap()),
    ])
    .unwrap();
    assert!(canonical_ratio_key(&huge).is_none());
}

#[test]
fn canonical_ratio_key_scales_fractions_by_their_common_denominator() {
    let c = Composition::new(vec![
        (element("Fe"), Frac::new(1, 2).unwrap()),
        (element("O"), Frac::new(3, 4).unwrap()),
    ])
    .unwrap();
    assert_eq!(
        canonical_ratio_key(&c).unwrap(),
        vec![(element("Fe"), 2), (element("O"), 3)]
    );
}
