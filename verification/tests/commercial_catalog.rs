use gugen::commercial_catalog::formula::parse_formula;
use gugen::commercial_catalog::model::{
    CommercialOfferId, CommercialPrecursorCatalog, CommercialPrecursorOffer,
    CommercialSourceType, OfferProvenance, PackageMass, ParticleSizeRangeUm, PurityFraction,
};
use gugen::frac::Frac;

fn frac(n: i128, d: i128) -> Frac {
    Frac::new(n, d).unwrap()
}

fn offer(id: &str, formula: &str) -> CommercialPrecursorOffer {
    CommercialPrecursorOffer {
        offer_id: CommercialOfferId(id.to_string()),
        manufacturer: "Example Materials Ltd.".to_string(),
        product_name: "Demo Oxide Grade A".to_string(),
        composition: parse_formula(formula).unwrap(),
        provenance: OfferProvenance {
            source_type: CommercialSourceType::SyntheticFixture,
            source_identifier: id.to_string(),
            retrieved_at: None,
            supplied_by: None,
            license_or_terms: None,
            checksum: None,
        },
        formula: formula.to_string(),
        catalog_number: None,
        cas_number: None,
        grade: None,
        purity: None,
        package_mass: None,
        unit_price: None,
        availability: None,
        lead_time_days: None,
        physical_form: None,
        particle_size_range_um: None,
        country_region: None,
        product_url: None,
        tags: Vec::new(),
        notes: None,
    }
}

#[test]
fn purity_fraction_rejects_zero_and_above_one() {
    assert!(PurityFraction::new(frac(0, 1)).is_err());
    assert!(PurityFraction::new(frac(10_000_001, 10_000_000)).is_err());
    assert!(PurityFraction::new(frac(-1, 2)).is_err());
    assert!(PurityFraction::new(frac(1, 1)).is_ok());
    assert!(PurityFraction::new(frac(1, 1000)).is_ok());
    assert_eq!(PurityFraction::new(frac(99, 100)).unwrap().value(), frac(99, 100));
}

#[test]
fn package_mass_rejects_non_positive_and_converts_units() {
    assert!(PackageMass::new(frac(0, 1)).is_err());
    assert!(PackageMass::new(frac(-1, 1)).is_err());
    assert_eq!(
        PackageMass::from_kilograms(frac(1, 1)).unwrap().grams(),
        frac(1000, 1)
    );
    assert_eq!(
        PackageMass::from_milligrams(frac(500, 1)).unwrap().grams(),
        frac(1, 2)
    );
    assert!(PackageMass::from_kilograms(frac(i128::MAX, 1)).is_err());
    assert!(PackageMass::from_milligrams(frac(1, i128::MAX)).is_err());
}

#[test]
fn particle_size_range_rejects_non_finite_negative_and_inverted() {
    assert!(ParticleSizeRangeUm::new(frac(-1, 1), frac(10, 1)).is_err());
    assert!(ParticleSizeRangeUm::new(frac(10, 1), frac(5, 1)).is_err());
    let range = ParticleSizeRangeUm::new(frac(1, 1), frac(10, 1)).unwrap();
    assert_eq!(range.min_um(), frac(1, 1));
    assert_eq!(range.max_um(), frac(10, 1));
    assert!(ParticleSizeRangeUm::new(frac(3, 2), frac(3, 2)).is_ok());
}

#[test]
fn from_offers_collapses_duplicate_ids_and_sorts_by_id() {
    let (catalog, report) = CommercialPrecursorCatalog::from_offers(vec![
        offer("B", "TiO2"),
        offer("A", "Fe2O3"),
        offer("A", "Fe2O3"),
    ]);
    assert_eq!(report.accepted, 2);
    assert_eq!(report.duplicate_offer_ids_collapsed, 1);
    let ids: Vec<&str> = catalog
        .offers()
        .iter()
        .map(|o| o.offer_id.0.as_str())
        .collect();
    assert_eq!(ids, vec!["A", "B"]);
}

#[test]
fn empty_catalog_is_not_an_error() {
    let (catalog, report) = CommercialPrecursorCatalog::from_offers(vec![]);
    assert!(catalog.offers().is_empty());
    assert_eq!(report.accepted, 0);
}

#[test]
fn from_offers_keeps_the_first_offer_given_for_an_identifier() {
    let (catalog, report) = CommercialPrecursorCatalog::from_offers(vec![
        offer("C", "CaO"),
        offer("A", "Fe2O3"),
        offer("A", "FeO"),
        offer("B", "TiO2"),
        offer("C", "CaCO3"),
    ]);
    assert_eq!(report.accepted, 3);
    assert_eq!(report.duplicate_offer_ids_collapsed, 2);
    assert!(report.rejected.is_empty());
    let kept: Vec<(&str, &str)> = catalog
        .offers()
        .iter()
        .map(|o| (o.offer_id.0.as_str(), o.formula.as_str()))
        .collect();
    assert_eq!(kept, vec![("A", "Fe2O3"), ("B", "TiO2"), ("C", "CaO")]);
    let a = catalog.get(&CommercialOfferId("A".to_string())).unwrap();
    assert_eq!(a.formula, "Fe2O3");
    assert!(catalog.get(&CommercialOfferId("D".to_string())).is_none());
}

#[test]
fn canonical_ratio_key_does_not_bridge_single_element_allotropes() {
    let o2 = parse_formula("O2").unwrap();
    let o3_only = parse_formula("O3").unwrap();
    assert!(gugen::commercial_catalog::matching::canonical_ratio_key(&o2).is_none());
    assert!(gugen::commercial_catalog::matching::canonical_ratio_key(&o3_only).is_none());
    let (catalog, _) = CommercialPrecursorCatalog::from_offers(vec![offer("A", "O3")]);
    assert!(catalog.offers_matching(&o2).is_empty());
    let o3 = parse_formula("O3").unwrap();
    assert_eq!(catalog.offers_matching(&o3).len(), 1);
}

#[test]
fn offers_matching_uses_canonical_ratio_equality() {
    let (catalog, _) = CommercialPrecursorCatalog::from_offers(vec![
        offer("A", "Fe2O3"),
        offer("B", "Fe4O6"),
        offer("C", "FeO"),
    ]);
    let target = parse_formula("Fe2O3").unwrap();
    let matches: Vec<&str> = catalog
        .offers_matching(&target)
        .iter()
        .map(|o| o.offer_id.0.as_str())
        .collect();
    assert_eq!(matches, vec!["A", "B"]);
}

#[test]
fn offers_matching_preserves_the_original_formula_spelling_in_provenance() {
    let (catalog, _) = CommercialPrecursorCatalog::from_offers(vec![offer("B", "Fe4O6")]);
    let target = parse_formula("Fe2O3").unwrap();
    let matched = catalog.offers_matching(&target);
    assert_eq!(matched[0].formula, "Fe4O6");
}
