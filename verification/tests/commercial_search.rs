use gugen::commercial_catalog::formula::parse_formula;
use gugen::commercial_catalog::model::{
    AvailabilityStatus, CommercialExclusionCode, CommercialOfferId, CommercialPlanningRequest,
    CommercialPrecursorOffer, CommercialSourceType, CurrencyCode, MissingCommercialDataPolicy,
    Money, OfferProvenance, PackageMass, PurityFraction,
};
use gugen::commercial_catalog::quantity::{
    compute_offer_quantity, cost_rank_key, unresolved_fields_for,
};
use gugen::commercial_catalog::search::{
    build_combination, hard_constraint_violations, passes_max_total_cost, OfferCandidate,
    PURITY_ADJUSTMENT_NOTE,
};
use gugen::frac::Frac;
use gugen::precursor::PrecursorId;

fn frac(n: i128, d: i128) -> Frac {
    Frac::new(n, d).unwrap()
}

fn money(units: u64, code: &str) -> Money {
    Money::new(units, CurrencyCode::new(code).unwrap())
}

fn offer(id: &str, formula: &str) -> CommercialPrecursorOffer {
    CommercialPrecursorOffer {
        offer_id: CommercialOfferId(id.to_string()),
        manufacturer: "Example Materials Ltd.".to_string(),
        product_name: "Demo Oxide Grade A".to_string(),
        composition: parse_formula(formula).unwrap(),
        provenance: OfferProvenance {
            source_type: CommercialSourceType::SyntheticFixture,
            source_identifier: id.to_string(),
            retrieved_at: None,
            supplied_by: None,
            license_or_terms: None,
            checksum: None,
        },
        formula: formula.to_string(),
        catalog_number: None,
        cas_number: None,
        grade: None,
        purity: None,
        package_mass: None,
        unit_price: None,
        availability: None,
        lead_time_days: None,
        physical_form: None,
        particle_size_range_um: None,
        country_region: None,
        product_url: None,
        tags: Vec::new(),
        notes: None,
    }
}

#[allow(clippy::too_many_arguments)]
fn priced_offer(
    id: &str,
    formula: &str,
    manufacturer: &str,
    purity: Option<(i128, i128)>,
    package_mass_g: Option<(i128, i128)>,
    price: Option<(u64, &str)>,
    lead_time_days: Option<u32>,
    availability: Option<AvailabilityStatus>,
) -> CommercialPrecursorOffer {
    let mut o = offer(id, formula);
    o.manufacturer = manufacturer.to_string();
    o.purity = purity.map(|(n, d)| PurityFraction::new(frac(n, d)).unwrap());
    o.package_mass = package_mass_g.map(|(n, d)| PackageMass::new(frac(n, d)).unwrap());
    o.unit_price = price.map(|(units, cur)| money(units, cur));
    o.lead_time_days = lead_time_days;
    o.availability = availability;
    o
}

fn open_request() -> CommercialPlanningRequest {
    CommercialPlanningRequest {
        target_composition: None,
        target_batch_mass_grams: None,
        allowed_manufacturers: None,
        excluded_manufacturers: Vec::new(),
        min_purity: None,
        max_lead_time_days: None,
        allowed_availability_statuses: None,
        allowed_physical_forms: None,
        required_tags: Vec::new(),
        excluded_tags: Vec::new(),
        max_total_cost: None,
        allowed_currencies: None,
        require_known_price: false,
        require_known_package_size: false,
        missing_data_policy: MissingCommercialDataPolicy::Reject,
    }
}

#[test]
fn package_count_does_not_round_up_when_exactly_at_a_package_boundary() {
    let offer = priced_offer(
        "A",
        "BaCO3",
        "Example Materials Ltd.",
        Some((1, 1)),
        Some((100, 1)),
        Some((1000, "USD")),
        Some(5),
        None,
    );
    let quantity = compute_offer_quantity(&offer, frac(500, 1)).unwrap();
    assert_eq!(quantity.package_count, Some(5));
}

#[test]
fn package_count_rounds_up_when_just_over_a_package_boundary() {
    let offer = priced_offer(
        "A",
        "BaCO3",
        "Example Materials Ltd.",
        Some((1, 1)),
        Some((100, 1)),
        Some((1000, "USD")),
        Some(5),
        None,
    );
    let quantity = compute_offer_quantity(&offer, frac(50001, 100)).unwrap();
    assert_eq!(quantity.package_count, Some(6));
}

#[test]
fn offer_quantity_adjusts_for_purity_and_prices_whole_packages() {
    let offer = priced_offer(
        "A",
        "BaCO3",
        "Example Materials Ltd.",
        Some((4, 5)),
        Some((25, 1)),
        Some((1999, "EUR")),
        None,
        None,
    );
    let q = compute_offer_quantity(&offer, frac(60, 1)).unwrap();
    assert_eq!(q.purity_adjusted_purchase_mass_grams, Some(frac(75, 1)));
    assert_eq!(q.package_count, Some(3));
    assert_eq!(q.purchased_mass_grams, Some(frac(75, 1)));
    assert_eq!(q.excess_mass_grams, Some(frac(0, 1)));
    assert_eq!(q.subtotal, Some(money(5997, "EUR")));
    assert!(!q.cost_overflowed);
}

#[test]
fn offer_quantity_leaves_unknowns_unknown_and_reports_cost_overflow() {
    let bare = offer("A", "BaCO3");
    let q = compute_offer_quantity(&bare, frac(10, 1)).unwrap();
    assert_eq!(q.purity_adjusted_purchase_mass_grams, None);
    assert_eq!(q.package_count, None);
    assert_eq!(q.subtotal, None);
    assert!(!q.cost_overflowed);
    let costly = priced_offer(
        "B",
        "BaCO3",
        "Example Materials Ltd.",
        Some((1, 1)),
        Some((1, 1)),
        Some((u64::MAX, "USD")),
        None,
        None,
    );
    let q = compute_offer_quantity(&costly, frac(2, 1)).unwrap();
    assert_eq!(q.package_count, Some(2));
    assert_eq!(q.subtotal, None);
    assert!(q.cost_overflowed);
}

#[test]
fn unresolved_fields_name_what_an_offer_does_not_report() {
    let bare = offer("A", "BaCO3");
    assert_eq!(
        unresolved_fields_for(&bare),
        vec!["purity", "package_mass", "unit_price", "lead_time_days"]
    );
    let priced = priced_offer(
        "B",
        "BaCO3",
        "Example Materials Ltd.",
        Some((1, 1)),
        None,
        Some((1, "USD")),
        Some(3),
        None,
    );
    assert_eq!(unresolved_fields_for(&priced), vec!["package_mass"]);
}

#[test]
fn cost_rank_key_puts_unknown_costs_last() {
    assert_eq!(cost_rank_key(None), (1, None, 0));
    let usd = CurrencyCode::new("USD").unwrap();
    assert_eq!(cost_rank_key(Some(money(42, "USD"))), (0, Some(usd), 42));
}

#[test]
fn an_unconstrained_request_accepts_any_offer() {
    assert!(hard_constraint_violations(&offer("A", "Fe2O3"), &open_request()).is_empty());
}

#[test]
fn hard_constraints_report_each_violation_in_order() {
    let mut request = open_request();
    request.min_purity = Some(PurityFraction::new(frac(99, 100)).unwrap());
    request.excluded_manufacturers = vec!["Example Materials Ltd.".to_string()];
    request.max_lead_time_days = Some(10);
    request.allowed_availability_statuses = Some(vec![AvailabilityStatus::InStock]);
    request.required_tags = vec!["anhydrous".to_string()];
    request.allowed_currencies = Some(vec![CurrencyCode::new("EUR").unwrap()]);
    request.require_known_package_size = true;
    let o = priced_offer(
        "A",
        "Fe2O3",
        "Example Materials Ltd.",
        Some((9, 10)),
        None,
        Some((100, "USD")),
        Some(30),
        Some(AvailabilityStatus::Discontinued),
    );
    assert_eq!(
        hard_constraint_violations(&o, &request),
        vec![
            CommercialExclusionCode::PurityBelowMinimum,
            CommercialExclusionCode::ManufacturerNotAllowed,
            CommercialExclusionCode::LeadTimeExceedsMaximum,
            CommercialExclusionCode::AvailabilityExcluded,
            CommercialExclusionCode::RequiredTagMissing,
            CommercialExclusionCode::CurrencyNotAllowed,
            CommercialExclusionCode::PackageSizeRequiredButUnknown,
        ]
    );
}

#[test]
fn missing_constrained_fields_depend_on_the_missing_data_policy() {
    let mut request = open_request();
    request.min_purity = Some(PurityFraction::new(frac(1, 2)).unwrap());
    request.max_lead_time_days = Some(5);
    let bare = offer("A", "Fe2O3");
    assert_eq!(
        hard_constraint_violations(&bare, &request),
        vec![
            CommercialExclusionCode::MissingConstrainedField,
            CommercialExclusionCode::MissingConstrainedField,
        ]
    );
    request.missing_data_policy = MissingCommercialDataPolicy::KeepWithWarning;
    assert!(hard_constraint_violations(&bare, &request).is_empty());
}

#[test]
fn excluded_tags_and_allowed_lists_are_read_as_sets() {
    let mut request = open_request();
    request.excluded_tags = vec!["hydrated".to_string()];
    request.allowed_manufacturers = Some(vec!["Other Co.".to_string()]);
    request.allowed_physical_forms = Some(vec!["powder".to_string()]);
    let mut o = offer("A", "Fe2O3");
    o.tags = vec!["hydrated".to_string()];
    o.physical_form = Some("pellet".to_string());
    assert_eq!(
        hard_constraint_violations(&o, &request),
        vec![
            CommercialExclusionCode::ManufacturerNotAllowed,
            CommercialExclusionCode::PhysicalFormNotAllowed,
            CommercialExclusionCode::ExcludedTagPresent,
        ]
    );
}

#[test]
fn the_cost_ceiling_only_judges_comparable_totals() {
    assert!(passes_max_total_cost(Some(money(10, "USD")), None));
    assert!(passes_max_total_cost(None, Some(money(5, "USD"))));
    assert!(passes_max_total_cost(Some(money(5, "USD")), Some(money(5, "USD"))));
    assert!(!passes_max_total_cost(Some(money(6, "USD")), Some(money(5, "USD"))));
    assert!(passes_max_total_cost(Some(money(600, "EUR")), Some(money(5, "USD"))));
}

fn candidate(o: &CommercialPrecursorOffer, required: Frac) -> OfferCandidate<'_> {
    OfferCandidate {
        offer: o,
        unresolved_fields: unresolved_fields_for(o),
        quantity: compute_offer_quantity(o, required).unwrap(),
    }
}

#[test]
fn a_combination_totals_its_selections() {
    let a = priced_offer(
        "A",
        "BaCO3",
        "Maker One",
        Some((1, 1)),
        Some((100, 1)),
        Some((1000, "USD")),
        Some(5),
        Some(AvailabilityStatus::InStock),
    );
    let b = priced_offer(
        "B",
        "TiO2",
        "Maker Two",
        Some((9, 10)),
        Some((50, 1)),
        Some((300, "USD")),
        Some(12),
        None,
    );
    let rows = vec![
        vec![candidate(&a, frac(150, 1))],
        vec![candidate(&b, frac(45, 1))],
    ];
    let meta = vec![
        (
            PrecursorId("BaCO3".to_string()),
            parse_formula("BaCO3").unwrap(),
            1u64,
            frac(150, 1),
        ),
        (
            PrecursorId("TiO2".to_string()),
            parse_formula("TiO2").unwrap(),
            1u64,
            frac(45, 1),
        ),
    ];
    let comb = build_combination(&[0, 0], &rows, &meta).unwrap();
    assert_eq!(comb.combination_id, "A|B");
    assert_eq!(comb.selections.len(), 2);
    assert_eq!(comb.selections[0].package_count, Some(2));
    assert_eq!(comb.selections[1].package_count, Some(1));
    assert_eq!(comb.total_cost, Some(money(2300, "USD")));
    assert!(comb.all_costs_known);
    assert_eq!(comb.max_lead_time_days, Some(12));
    assert!(comb.all_availability_acceptable);
    assert_eq!(comb.min_purity.map(|p| p.value()), Some(frac(9, 10)));
    assert_eq!(comb.total_excess_mass_grams, Some(frac(50, 1)));
    assert_eq!(comb.selections[1].assumptions, vec![PURITY_ADJUSTMENT_NOTE.to_string()]);
    assert_eq!(comb.selections[0].precursor, PrecursorId("BaCO3".to_string()));
}

#[test]
fn a_combination_with_unknowns_or_mixed_currencies_has_no_totals() {
    let a = priced_offer(
        "A",
        "BaCO3",
        "Maker One",
        Some((1, 1)),
        Some((100, 1)),
        Some((1000, "USD")),
        None,
        Some(AvailabilityStatus::Discontinued),
    );
    let b = priced_offer(
        "B",
        "TiO2",
        "Maker Two",
        None,
        Some((50, 1)),
        Some((300, "EUR")),
        Some(12),
        None,
    );
    let rows = vec![
        vec![candidate(&a, frac(150, 1))],
        vec![candidate(&b, frac(45, 1))],
    ];
    let meta = vec![
        (
            PrecursorId("BaCO3".to_string()),
            parse_formula("BaCO3").unwrap(),
            1u64,
            frac(150, 1),
        ),
        (
            PrecursorId("TiO2".to_string()),
            parse_formula("TiO2").unwrap(),
            1u64,
            frac(45, 1),
        ),
    ];
    let comb = build_combination(&[0, 0], &rows, &meta).unwrap();
    assert_eq!(comb.total_cost, None);
    assert!(!comb.all_costs_known);
    assert_eq!(comb.max_lead_time_days, None);
    assert!(!comb.all_availability_acceptable);
    assert_eq!(comb.min_purity, None);
    assert_eq!(comb.total_excess_mass_grams, None);
}

#[test]
fn exact_fraction_comparison_handles_signs_and_huge_terms() {
    assert!(frac(1, 3).less_than(&frac(1, 2)));
    assert!(!frac(1, 2).less_than(&frac(1, 2)));
    assert!(frac(-1, 2).less_than(&frac(1, 3)));
    assert!(frac(-1, 2).less_than(&frac(-1, 3)));
    assert!(!frac(-1, 3).less_than(&frac(-1, 2)));
    let big = frac(i128::MAX - 1, i128::MAX);
    let bigger = frac(i128::MAX, i128::MAX - 2);
    assert!(big.less_than(&bigger));
    assert!(!bigger.less_than(&big));
    assert!(frac(2, 3).at_most(&frac(4, 6)));
}
