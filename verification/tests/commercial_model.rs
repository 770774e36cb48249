use gugen::commercial_catalog::model::{
    parse_availability, parse_source_type, AvailabilityStatus, CasNumber,
    CommercialCatalogColumnMap, CommercialCatalogError, CommercialSourceType, CurrencyCode, Money,
};

#[test]
fn currency_code_requires_three_uppercase_ascii_letters() {
    assert!(CurrencyCode::new("USD").is_ok());
    assert!(CurrencyCode::new("us").is_err());
    assert!(CurrencyCode::new("usd").is_err());
    assert!(CurrencyCode::new("USDD").is_err());
}

#[test]
fn currency_code_round_trips_and_reports_the_rejected_text() {
    assert_eq!(CurrencyCode::new("EUR").unwrap().as_str(), "EUR");
    assert_eq!(
        CurrencyCode::new("Eur"),
        Err(CommercialCatalogError::InvalidCurrencyCode { code: "Eur".to_string() })
    );
    assert!(CurrencyCode::new("ÜSD").is_err());
}

#[test]
fn money_checked_arithmetic_never_panics_on_overflow() {
    let usd = CurrencyCode::new("USD").unwrap();
    let eur = CurrencyCode::new("EUR").unwrap();
    let big = Money::new(u64::MAX, usd);
    assert_eq!(big.checked_mul_quantity(2), None);
    assert_eq!(big.checked_add(&Money::new(1, usd)), None);
    assert_eq!(Money::new(1, usd).checked_add(&Money::new(1, eur)), None, "currencies never sum");
    assert_eq!(Money::new(100, usd).checked_add(&Money::new(50, usd)), Some(Money::new(150, usd)));
}

#[test]
fn money_checked_arithmetic_at_the_u64_max_boundary() {
    let usd = CurrencyCode::new("USD").unwrap();
    assert_eq!(
        Money::new(u64::MAX, usd).checked_mul_quantity(1),
        Some(Money::new(u64::MAX, usd)),
        "multiplying by 1 at the exact max must succeed"
    );
    assert_eq!(
        Money::new(u64::MAX - 1, usd).checked_add(&Money::new(1, usd)),
        Some(Money::new(u64::MAX, usd)),
        "summing to exactly the max must succeed"
    );
    assert_eq!(
        Money::new(u64::MAX, usd).checked_add(&Money::new(1, usd)),
        None,
        "one past the max must overflow to None, not wrap"
    );
    let half_plus_one = u64::MAX / 2 + 1;
    assert_eq!(
        Money::new(half_plus_one, usd).checked_mul_quantity(2),
        None,
        "just over half the max, doubled, must overflow"
    );
}

#[test]
fn money_accessors_return_what_was_stored() {
    let jpy = CurrencyCode::new("JPY").unwrap();
    let m = Money::new(1234, jpy);
    assert_eq!(m.minor_units(), 1234);
    assert_eq!(m.currency(), jpy);
    assert_eq!(m.checked_mul_quantity(3), Some(Money::new(3702, jpy)));
}

#[test]
fn cas_number_checksum_validates_water_and_rejects_a_bad_checksum() {
    assert!(CasNumber::new("7732-18-5").checksum_verified);
    assert!(!CasNumber::new("7732-18-4").checksum_verified);
    assert!(!CasNumber::new("not-a-cas-number").checksum_verified);
}

#[test]
fn cas_number_shapes() {
    assert!(CasNumber::new("50-00-0").checksum_verified); // formaldehyde
    assert!(CasNumber::new("7440-44-0").checksum_verified); // carbon
    assert!(CasNumber::new("1333-86-4").checksum_verified);
    assert!(!CasNumber::new("7732-185").checksum_verified);
    assert!(!CasNumber::new("12345678-18-5").checksum_verified);
    assert!(!CasNumber::new("7732-18-5-1").checksum_verified);
    assert_eq!(CasNumber::new("7732-18-5").raw, "7732-18-5");
}

#[test]
fn availability_and_source_type_parse_case_and_whitespace_insensitively() {
    assert_eq!(parse_availability("  In_Stock \t"), Some(AvailabilityStatus::InStock));
    assert_eq!(parse_availability("discontinued"), Some(AvailabilityStatus::Discontinued));
    assert_eq!(parse_availability("BACK_ORDERED"), Some(AvailabilityStatus::BackOrdered));
    assert_eq!(parse_availability("in stock"), None);
    assert_eq!(parse_source_type(" vendor_export"), Some(CommercialSourceType::VendorExport));
    assert_eq!(parse_source_type("SYNTHETIC_FIXTURE"), Some(CommercialSourceType::SyntheticFixture));
    assert_eq!(parse_source_type("vendor"), None);
}

fn entry(canonical: &str, external: &str) -> (String, String) {
    (canonical.to_string(), external.to_string())
}

fn external_to_canonical(pairs: &[(String, String)], external: &str) -> Option<String> {
    pairs
        .iter()
        .find(|(e, _)| e == external)
        .map(|(_, c)| c.clone())
}

#[test]
fn column_map_rejects_an_unknown_canonical_name() {
    let map = vec![entry("formulla", "Chemical Formula")];
    assert!(matches!(
        CommercialCatalogColumnMap::new(map),
        Err(CommercialCatalogError::InvalidColumnMap { .. })
    ));
}

#[test]
fn column_map_rejects_two_canonical_names_claiming_the_same_header() {
    let map = vec![entry("formula", "Product"), entry("product_name", "Product")];
    assert!(matches!(
        CommercialCatalogColumnMap::new(map),
        Err(CommercialCatalogError::InvalidColumnMap { .. })
    ));
}

#[test]
fn column_map_accepts_a_valid_partial_map() {
    let map = vec![
        entry("formula", "Chemical Formula"),
        entry("manufacturer", "Supplier"),
    ];
    let column_map = CommercialCatalogColumnMap::new(map).unwrap();
    let by_external = column_map.canonical_by_external();
    assert_eq!(
        external_to_canonical(&by_external, "Chemical Formula"),
        Some("formula".to_string())
    );
    assert_eq!(
        external_to_canonical(&by_external, "Supplier"),
        Some("manufacturer".to_string())
    );
    assert_eq!(by_external.len(), 2);
}

#[test]
fn column_map_reads_a_repeated_canonical_name_like_a_map() {
    let map = vec![entry("formula", "A"), entry("formula", "B")];
    let column_map = CommercialCatalogColumnMap::new(map).unwrap();
    let by_external = column_map.canonical_by_external();
    assert_eq!(by_external.len(), 1);
    assert_eq!(external_to_canonical(&by_external, "B"), Some("formula".to_string()));
}

#[test]
fn a_currency_code_reads_back_as_itself() {
    let code = CurrencyCode::new("JPY").unwrap();
    assert_eq!(CurrencyCode::new(code.as_str()).unwrap(), code);
}
