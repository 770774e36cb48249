use gugen::frac::Frac;
use gugen::literature_conditions::curated_records;
use gugen::process::HeatingPurpose;
use std::collections::BTreeSet;

#[test]
fn curated_records_have_no_duplicate_target_precursor_purpose_keys() {
    let mut seen: BTreeSet<(String, Vec<String>, String)> = BTreeSet::new();
    for record in curated_records() {
        let target_key = format!("{:?}", record.target);
        let precursor_key: Vec<String> = record.precursor_ids.iter().map(|p| p.0.clone()).collect();
        for condition in &record.conditions {
            let key = (target_key.clone(), precursor_key.clone(), format!("{:?}", condition.purpose));
            assert!(
                seen.insert(key.clone()),
                "duplicate curated condition record for {key:?} -- two records claiming the same target/precursor-set/purpose makes resolution order-dependent"
            );
        }
    }
}

#[test]
fn curated_records_cite_a_source_for_every_condition() {
    let records = curated_records();
    assert_eq!(records.len(), 5);
    assert_eq!(records.iter().map(|r| r.conditions.len()).sum::<usize>(), 7);
    for record in &records {
        for condition in &record.conditions {
            assert!(condition.source_id.is_some());
            assert!(condition.temperature.is_some());
        }
    }
    let batio3 = &records[4];
    assert_eq!(batio3.precursor_ids.len(), 2);
    assert_eq!(batio3.conditions[1].temperature.unwrap().max_celsius().numerator(), 1350);
    assert!(batio3.conditions[1].duration.is_none());
}

#[test]
fn curated_records_list_the_reported_firing_conditions() {
    let records = curated_records();
    assert_eq!(records.len(), 5);
    let conditions: usize = records.iter().map(|r| r.conditions.len()).sum();
    assert_eq!(conditions, 7);
    let titanate = &records[4];
    let ids: Vec<&str> = titanate.precursor_ids.iter().map(|p| p.0.as_str()).collect();
    assert_eq!(ids, vec!["BaCO3", "TiO2"]);
    let calcination = &titanate.conditions[0];
    assert_eq!(calcination.purpose, HeatingPurpose::Calcination);
    let t = calcination.temperature.as_ref().unwrap();
    assert_eq!(t.min_celsius(), Frac::new(1000, 1).unwrap());
    assert_eq!(t.max_celsius(), Frac::new(1000, 1).unwrap());
    let sintering = &titanate.conditions[1];
    assert_eq!(sintering.purpose, HeatingPurpose::Sintering);
    let t = sintering.temperature.as_ref().unwrap();
    assert_eq!(t.min_celsius(), Frac::new(1200, 1).unwrap());
    assert_eq!(t.max_celsius(), Frac::new(1350, 1).unwrap());
    assert!(sintering.duration.is_none());
    assert_eq!(sintering.source_id.as_deref(), Some("10.3390/cryst14040304"));
}
