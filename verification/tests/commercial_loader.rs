use gugen::commercial_catalog::fields::{parse_decimal, parse_uint};
use gugen::commercial_catalog::json_rows::{load_json_entries, offer_from_raw, RawOffer};
use gugen::commercial_catalog::loader::{
    load_csv_table, parse_tags, validate_particle_size, validate_price, CsvTable,
};
use gugen::commercial_catalog::model::{
    AvailabilityStatus, CommercialCatalogColumnMap, CommercialCatalogError, CurrencyCode, CommercialCatalogLoadMode,
    CommercialPrecursorCatalog, RejectedOffer,
};
use gugen::error::ProviderError;
use gugen::frac::Frac;

const SAMPLE_CSV: &str = "offer_id,manufacturer,product_name,formula,source,purity_fraction,package_mass_g,price_minor_units,currency\n\
    EML-1,Example Materials Ltd.,Demo Oxide Grade A,Fe2O3,synthetic_fixture,0.99,500,4500,USD\n\
    EML-2,Example Materials Ltd.,Demo Oxide Grade B,TiO2,synthetic_fixture,,,,\n";

fn column_map(pairs: &[(&str, &str)]) -> CommercialCatalogColumnMap {
    CommercialCatalogColumnMap::new(
        pairs
            .iter()
            .map(|(c, e)| (c.to_string(), e.to_string()))
            .collect(),
    )
    .unwrap()
}

fn chars(s: &str) -> Vec<char> {
    s.chars().collect()
}

#[test]
fn load_csv_accepts_valid_rows() {
    let (catalog, report) =
        CommercialPrecursorCatalog::load_csv(SAMPLE_CSV, CommercialCatalogLoadMode::Strict).unwrap();
    assert_eq!(report.accepted, 2);
    assert!(report.rejected.is_empty());
    assert_eq!(catalog.offers().len(), 2);
}

#[test]
fn load_csv_rejects_an_unparseable_formula_in_lenient_mode() {
    let csv = "offer_id,manufacturer,product_name,formula,source\nBAD,Example Materials Ltd.,Broken,not-a-formula!,synthetic_fixture\n";
    let (catalog, report) =
        CommercialPrecursorCatalog::load_csv(csv, CommercialCatalogLoadMode::Lenient).unwrap();
    assert!(catalog.offers().is_empty());
    assert_eq!(report.rejected.len(), 1);
    assert_eq!(report.rejected[0].field, "formula");
}

#[test]
fn load_csv_strict_mode_fails_the_whole_load_on_the_first_bad_row() {
    let csv = "offer_id,manufacturer,product_name,formula,source\nBAD,Example Materials Ltd.,Broken,not-a-formula!,synthetic_fixture\n";
    let result = CommercialPrecursorCatalog::load_csv(csv, CommercialCatalogLoadMode::Strict);
    assert!(result.is_err());
}

#[test]
fn load_csv_duplicate_offer_id_is_a_soft_rejection_even_in_strict_mode() {
    let csv = "offer_id,manufacturer,product_name,formula,source\n\
        A,Example Materials Ltd.,Demo Oxide Grade A,Fe2O3,synthetic_fixture\n\
        A,Example Materials Ltd.,Demo Oxide Grade A (dup),TiO2,synthetic_fixture\n";
    let (catalog, report) =
        CommercialPrecursorCatalog::load_csv(csv, CommercialCatalogLoadMode::Strict).unwrap();
    assert_eq!(catalog.offers().len(), 1);
    assert_eq!(report.rejected.len(), 1);
    assert_eq!(report.rejected[0].field, "offer_id");
}

#[test]
fn load_csv_rejects_a_row_with_price_but_no_currency() {
    let csv = "offer_id,manufacturer,product_name,formula,source,price_minor_units\nA,Example Materials Ltd.,Demo Oxide,Fe2O3,synthetic_fixture,100\n";
    let (_, report) =
        CommercialPrecursorCatalog::load_csv(csv, CommercialCatalogLoadMode::Lenient).unwrap();
    assert_eq!(report.rejected.len(), 1);
}

#[test]
fn load_csv_missing_header_column_is_a_hard_failure() {
    let csv = "manufacturer,product_name,formula,source\nExample Materials Ltd.,Demo Oxide,Fe2O3,synthetic_fixture\n";
    let result = CommercialPrecursorCatalog::load_csv(csv, CommercialCatalogLoadMode::Lenient);
    assert!(result.is_err());
}

#[test]
fn load_csv_empty_file_produces_an_empty_catalog() {
    let csv = "offer_id,manufacturer,product_name,formula,source\n";
    let (catalog, report) =
        CommercialPrecursorCatalog::load_csv(csv, CommercialCatalogLoadMode::Strict).unwrap();
    assert!(catalog.offers().is_empty());
    assert_eq!(report.accepted, 0);
}

#[test]
fn load_csv_with_column_map_accepts_a_partially_renamed_header_row() {
    let csv = "offer_id,Supplier,product_name,Chemical Formula,source\n\
        EML-1,Example Materials Ltd.,Demo Oxide,Fe2O3,synthetic_fixture\n";
    let map = column_map(&[("manufacturer", "Supplier"), ("formula", "Chemical Formula")]);
    let (catalog, report) = CommercialPrecursorCatalog::load_csv_with_column_map(
        csv,
        CommercialCatalogLoadMode::Strict,
        &map,
    )
    .unwrap();
    assert_eq!(report.accepted, 1);
    assert_eq!(catalog.offers()[0].manufacturer, "Example Materials Ltd.");
}

#[test]
fn load_csv_with_column_map_still_hard_fails_on_a_missing_required_column() {
    let csv = "offer_id,Supplier,product_name,source\nEML-1,Example Materials Ltd.,Demo Oxide,synthetic_fixture\n";
    let map = column_map(&[("manufacturer", "Supplier")]);
    let result = CommercialPrecursorCatalog::load_csv_with_column_map(
        csv,
        CommercialCatalogLoadMode::Strict,
        &map,
    );
    assert!(result.is_err());
}

#[test]
fn load_csv_with_column_map_rejects_a_collision_after_remapping() {
    let csv = "offer_id,manufacturer,product_name,formula,source,chem\n\
        EML-1,Example Materials Ltd.,Demo Oxide,Fe2O3,synthetic_fixture,TiO2\n";
    let map = column_map(&[("formula", "chem")]);
    let result = CommercialPrecursorCatalog::load_csv_with_column_map(
        csv,
        CommercialCatalogLoadMode::Strict,
        &map,
    );
    assert!(result.is_err());
}

#[test]
fn load_csv_with_column_map_does_not_error_on_a_pre_existing_duplicate_the_map_never_touches() {
    let csv = "offer_id,Supplier,product_name,formula,source,notes,notes\n\
        EML-1,Example Materials Ltd.,Demo Oxide,Fe2O3,synthetic_fixture,a,b\n";
    let map = column_map(&[("manufacturer", "Supplier")]);
    let result = CommercialPrecursorCatalog::load_csv_with_column_map(
        csv,
        CommercialCatalogLoadMode::Strict,
        &map,
    );
    assert!(result.is_ok());
}

#[test]
fn load_csv_with_column_map_round_trips_every_canonical_column() {
    let values: Vec<(&str, &str)> = vec![
        ("offer_id", "EML-1"),
        ("manufacturer", "Example Materials Ltd."),
        ("product_name", "Demo Oxide"),
        ("formula", "Fe2O3"),
        ("source", "synthetic_fixture"),
        ("purity_fraction", "0.99"),
        ("package_mass_g", "500"),
        ("price_minor_units", "4500"),
        ("currency", "USD"),
        ("availability", "in_stock"),
        ("lead_time_days", "7"),
        ("particle_size_min_um", "1.0"),
        ("particle_size_max_um", "2.0"),
        ("cas_number", "7732-18-5"),
        ("tags", "a;b"),
        ("catalog_number", "CAT-1"),
        ("grade", "ACS"),
        ("physical_form", "powder"),
        ("country_region", "US"),
        ("product_url", "https://example.test/p"),
        ("notes", "note"),
        ("retrieved_at", "2026-08-14"),
    ];
    let external_of = |canonical: &str| format!("Col {canonical}");
    let pairs: Vec<(String, String)> = values
        .iter()
        .map(|(c, _)| (c.to_string(), external_of(c)))
        .collect();
    let map = CommercialCatalogColumnMap::new(pairs).unwrap();
    let header_row = values
        .iter()
        .map(|(c, _)| external_of(c))
        .collect::<Vec<_>>()
        .join(",");
    let value_row = values.iter().map(|(_, v)| *v).collect::<Vec<_>>().join(",");
    let csv = format!("{header_row}\n{value_row}\n");

    let (catalog, report) = CommercialPrecursorCatalog::load_csv_with_column_map(
        &csv,
        CommercialCatalogLoadMode::Strict,
        &map,
    )
    .unwrap();
    assert_eq!(report.accepted, 1);
    let offer = &catalog.offers()[0];
    assert_eq!(offer.offer_id.0, "EML-1");
    assert_eq!(offer.manufacturer, "Example Materials Ltd.");
    assert_eq!(offer.product_name, "Demo Oxide");
    assert_eq!(offer.formula, "Fe2O3");
    assert!(offer.purity.is_some());
    assert!(offer.package_mass.is_some());
    assert!(offer.unit_price.is_some());
    assert!(offer.availability.is_some());
    assert_eq!(offer.lead_time_days, Some(7));
    assert!(offer.particle_size_range_um.is_some());
    assert!(offer.cas_number.is_some());
    assert_eq!(offer.tags.len(), 2);
    assert!(offer.catalog_number.is_some());
    assert!(offer.grade.is_some());
    assert!(offer.physical_form.is_some());
    assert!(offer.country_region.is_some());
    assert!(offer.product_url.is_some());
    assert!(offer.notes.is_some());
    assert!(offer.provenance.retrieved_at.is_some());
}

#[test]
fn loaded_fields_hold_their_exact_values() {
    let csv = "offer_id,manufacturer,product_name,formula,source,purity_fraction,package_mass_g,price_minor_units,currency,availability,lead_time_days,tags,cas_number\n\
        EML-9, Example Materials Ltd. ,Demo,BaCO3,Vendor_Export,0.995,2.5,12345,EUR,Back_Ordered,14, z ; a;;z ,7732-18-5\n";
    let (catalog, report) =
        CommercialPrecursorCatalog::load_csv(csv, CommercialCatalogLoadMode::Strict).unwrap();
    assert_eq!(report.accepted, 1);
    let offer = &catalog.offers()[0];
    assert_eq!(offer.manufacturer, "Example Materials Ltd.");
    assert_eq!(offer.purity.unwrap().value(), Frac::new(199, 200).unwrap());
    assert_eq!(offer.package_mass.unwrap().grams(), Frac::new(5, 2).unwrap());
    let price = offer.unit_price.unwrap();
    assert_eq!(price.minor_units(), 12345);
    assert_eq!(price.currency().as_str(), "EUR");
    assert_eq!(offer.availability, Some(AvailabilityStatus::BackOrdered));
    assert_eq!(offer.lead_time_days, Some(14));
    assert_eq!(offer.tags, vec!["a".to_string(), "z".to_string()]);
    assert!(offer.cas_number.as_ref().unwrap().checksum_verified);
    assert_eq!(offer.provenance.source_identifier, "EML-9");
}

#[test]
fn a_rejection_names_the_row_field_reason_and_value() {
    let csv = "offer_id,manufacturer,product_name,formula,source,purity_fraction,lead_time_days\n\
        A,M,P,Fe2O3,synthetic_fixture,1.5,\n\
        B,M,P,Fe2O3,synthetic_fixture,,-3\n\
        C,M,P,Fe2O3,nowhere,,\n\
        ,M,P,Fe2O3,synthetic_fixture,,\n";
    let (catalog, report) =
        CommercialPrecursorCatalog::load_csv(csv, CommercialCatalogLoadMode::Lenient).unwrap();
    assert!(catalog.offers().is_empty());
    assert_eq!(report.rejected.len(), 4);
    let r = &report.rejected;
    assert_eq!((r[0].row, r[0].offer_id.as_str(), r[0].field.as_str()), (0, "A", "purity_fraction"));
    assert_eq!(r[0].reason, "purity fraction must be > 0 and <= 1, got 3/2");
    assert_eq!(r[0].original_value, "1.5");
    assert_eq!((r[1].row, r[1].field.as_str()), (1, "lead_time_days"));
    assert_eq!(r[1].reason, "invalid digit found in string");
    assert_eq!(r[1].original_value, "-3");
    assert_eq!((r[2].field.as_str(), r[2].reason.as_str()), ("source", "'nowhere' is not a recognized source type"));
    assert_eq!((r[3].offer_id.as_str(), r[3].field.as_str()), ("", "offer_id"));
    assert_eq!(r[3].reason, "missing required field 'offer_id'");
}

#[test]
fn strict_failures_report_the_row_and_field() {
    let csv = "offer_id,manufacturer,product_name,formula,source,currency\n\
        A,M,P,Fe2O3,synthetic_fixture,usd\n";
    let result = CommercialPrecursorCatalog::load_csv(csv, CommercialCatalogLoadMode::Strict);
    assert_eq!(
        result.err(),
        Some(ProviderError::MalformedRecord(
            "row 0: field 'currency': \"usd\" is not a 3-letter uppercase ASCII currency code".to_string()
        ))
    );
    let missing = CommercialPrecursorCatalog::load_csv("offer_id,manufacturer\n", CommercialCatalogLoadMode::Lenient);
    assert_eq!(
        missing.err(),
        Some(ProviderError::MalformedRecord(
            "CSV header is missing required column 'product_name'".to_string()
        ))
    );
}

#[test]
fn a_particle_range_needs_both_ends_in_order() {
    let csv = "offer_id,manufacturer,product_name,formula,source,particle_size_min_um,particle_size_max_um\n\
        A,M,P,Fe2O3,synthetic_fixture,3,2\n\
        B,M,P,Fe2O3,synthetic_fixture,3,\n";
    let (_, report) =
        CommercialPrecursorCatalog::load_csv(csv, CommercialCatalogLoadMode::Lenient).unwrap();
    assert_eq!(report.rejected[0].reason, "particle size range invalid: min_um must be <= max_um");
    assert_eq!(
        report.rejected[1].reason,
        "particle size range invalid: particle_size_min_um present without particle_size_max_um"
    );
    assert_eq!(report.rejected[1].field, "particle_size_min_um");
}

#[test]
fn a_table_row_the_reader_refused_is_rejected_or_fails_the_load() {
    let header: Vec<String> = ["offer_id", "manufacturer", "product_name", "formula", "source"]
        .iter()
        .map(|s| s.to_string())
        .collect();
    let good: Vec<String> = ["A", "M", "P", "TiO2", "synthetic_fixture"]
        .iter()
        .map(|s| s.to_string())
        .collect();
    let table = CsvTable {
        header: Ok(header),
        records: vec![Err("found record with 2 fields".to_string()), Ok(good)],
    };
    let (catalog, report) = load_csv_table(&table, CommercialCatalogLoadMode::Lenient, None).unwrap();
    assert_eq!(catalog.offers().len(), 1);
    assert_eq!(report.rejected.len(), 1);
    assert_eq!(report.rejected[0].field, "row");
    assert_eq!(report.rejected[0].reason, "found record with 2 fields");
    let strict = load_csv_table(&table, CommercialCatalogLoadMode::Strict, None);
    assert_eq!(
        strict.err(),
        Some(ProviderError::MalformedRecord("row 0: found record with 2 fields".to_string()))
    );
    let broken = CsvTable { header: Err("invalid UTF-8".to_string()), records: Vec::new() };
    assert_eq!(
        load_csv_table(&broken, CommercialCatalogLoadMode::Lenient, None).err(),
        Some(ProviderError::MalformedRecord("CSV header: invalid UTF-8".to_string()))
    );
}

#[test]
fn decimals_are_read_exactly() {
    assert_eq!(parse_decimal(&chars("0.99")), Ok(Frac::new(99, 100).unwrap()));
    assert_eq!(parse_decimal(&chars("-2.50")), Ok(Frac::new(-5, 2).unwrap()));
    assert_eq!(parse_decimal(&chars("+.5")), Ok(Frac::new(1, 2).unwrap()));
    assert_eq!(parse_decimal(&chars("7.")), Ok(Frac::new(7, 1).unwrap()));
    assert_eq!(parse_decimal(&chars(".")), Err("invalid float literal".to_string()));
    assert_eq!(parse_decimal(&chars("1e3")), Err("invalid float literal".to_string()));
    assert_eq!(parse_decimal(&chars("1.2.3")), Err("invalid float literal".to_string()));
    assert_eq!(
        parse_decimal(&chars("0.0000000000000000000000000000000000000001")),
        Err("decimal literal has too many digits to hold exactly".to_string())
    );
}

#[test]
fn unsigned_integers_are_read_as_std_reads_them() {
    assert_eq!(parse_uint(&chars("+42"), u64::MAX), Ok(42));
    assert_eq!(parse_uint(&chars("4294967295"), u32::MAX as u64), Ok(4294967295));
    assert_eq!(
        parse_uint(&chars("4294967296"), u32::MAX as u64),
        Err("number too large to fit in target type".to_string())
    );
    assert_eq!(parse_uint(&chars("+"), u64::MAX), Err("invalid digit found in string".to_string()));
    assert_eq!(parse_uint(&chars("12a"), u64::MAX), Err("invalid digit found in string".to_string()));
}

#[test]
fn tags_form_a_sorted_set() {
    assert_eq!(parse_tags("b; a ;;b"), vec!["a".to_string(), "b".to_string()]);
    assert!(parse_tags(" ; ").is_empty());
}

fn raw(id: &str, formula: &str) -> RawOffer {
    RawOffer {
        offer_id: id.to_string(),
        manufacturer: "Example Materials Ltd.".to_string(),
        product_name: "Demo Oxide Grade A".to_string(),
        formula: formula.to_string(),
        source_type: "synthetic_fixture".to_string(),
        source_identifier: None,
        catalog_number: None,
        cas_number: None,
        grade: None,
        purity: None,
        package_mass_g: None,
        price_minor_units: None,
        currency: None,
        availability: None,
        lead_time_days: None,
        physical_form: None,
        particle_size_min_um: None,
        particle_size_max_um: None,
        country_region: None,
        product_url: None,
        retrieved_at: None,
        tags: None,
        notes: None,
        original: format!("{{\"offer_id\":\"{id}\"}}"),
    }
}

#[test]
fn json_entries_are_validated_into_offers() {
    let mut a = raw("A", "Fe2O3");
    a.purity = Some("0.99".to_string());
    a.tags = Some(vec!["b".to_string(), "a".to_string(), "b".to_string()]);
    a.source_identifier = Some("vendor-sheet-7".to_string());
    let offer = offer_from_raw(&a, 0).unwrap();
    assert_eq!(offer.purity.unwrap().value(), Frac::new(99, 100).unwrap());
    assert_eq!(offer.tags, vec!["a".to_string(), "b".to_string()]);
    assert_eq!(offer.provenance.source_identifier, "vendor-sheet-7");
    let b = raw("B", "TiO2");
    assert_eq!(offer_from_raw(&b, 1).unwrap().provenance.source_identifier, "B");
}

#[test]
fn a_json_purity_out_of_range_refuses_the_whole_entry() {
    let mut a = raw("A", "Fe2O3");
    a.purity = Some("1.5".to_string());
    let j = offer_from_raw(&a, 4).unwrap_err();
    assert_eq!((j.row, j.offer_id.as_str(), j.field.as_str()), (4, "A", "row"));
    assert_eq!(j.reason, "purity fraction must be > 0 and <= 1, got 3/2");
    assert_eq!(j.original_value, "{\"offer_id\":\"A\"}");
    let mut c = raw("C", "Fe2O3");
    c.source_type = "unknown".to_string();
    let j = offer_from_raw(&c, 0).unwrap_err();
    assert_eq!(j.field, "source_type");
}

#[test]
fn json_entries_load_like_csv_rows() {
    let refused = RejectedOffer {
        row: 1,
        offer_id: "X".to_string(),
        field: "row".to_string(),
        reason: "invalid type: string \"not-a-number\", expected f64".to_string(),
        original_value: "{}".to_string(),
    };
    let entries = vec![Ok(raw("A", "Fe2O3")), Err(refused.clone()), Ok(raw("A", "TiO2"))];
    let (catalog, report) = load_json_entries(&entries, CommercialCatalogLoadMode::Lenient).unwrap();
    assert_eq!(catalog.offers().len(), 1);
    assert_eq!(report.accepted, 1);
    assert_eq!(report.rejected.len(), 2);
    assert_eq!(report.rejected[0], refused);
    assert_eq!(report.rejected[1].field, "offer_id");
    assert_eq!(
        load_json_entries(&entries, CommercialCatalogLoadMode::Strict).err(),
        Some(ProviderError::MalformedRecord(
            "row 1: field 'row': invalid type: string \"not-a-number\", expected f64".to_string()
        ))
    );
}

#[test]
fn a_column_map_that_renames_no_header_changes_nothing() {
    let map = column_map(&[("manufacturer", "Supplier"), ("formula", "Chemical Formula")]);
    let plain = CommercialPrecursorCatalog::load_csv(SAMPLE_CSV, CommercialCatalogLoadMode::Strict).unwrap();
    let mapped = CommercialPrecursorCatalog::load_csv_with_column_map(
        SAMPLE_CSV,
        CommercialCatalogLoadMode::Strict,
        &map,
    )
    .unwrap();
    assert_eq!(plain.0.offers(), mapped.0.offers());
    assert_eq!(plain.1, mapped.1);
}

#[test]
fn prices_and_particle_ranges_come_whole() {
    let usd = CurrencyCode::new("USD").unwrap();
    assert_eq!(validate_price(None, None), Ok(None));
    assert_eq!(validate_price(Some(5), Some(usd)).unwrap().unwrap().minor_units(), 5);
    assert_eq!(
        validate_price(Some(5), None),
        Err("price_minor_units present without currency".to_string())
    );
    assert_eq!(
        validate_price(None, Some(usd)),
        Err("currency present without price_minor_units".to_string())
    );
    let one = Frac::new(1, 1).unwrap();
    let two = Frac::new(2, 1).unwrap();
    assert!(validate_particle_size(Some(one), Some(two)).unwrap().is_some());
    assert_eq!(
        validate_particle_size(Some(two), Some(one)),
        Err(CommercialCatalogError::InvalidParticleSizeRange {
            reason: "min_um must be <= max_um".to_string()
        })
    );
    assert_eq!(
        validate_particle_size(None, Some(one)),
        Err(CommercialCatalogError::InvalidParticleSizeRange {
            reason: "particle_size_max_um present without particle_size_min_um".to_string()
        })
    );
}
