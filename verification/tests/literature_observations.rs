use gugen::composition::{Composition, Element};
use gugen::error::ProviderError;
use gugen::frac::Frac;
use gugen::literature_observations::{
    precursor_set, CorpusHeatingObservation, CorpusManifest, LiteratureObservationCorpus, LoadMode,
    CORPUS_SNAPSHOT_SCHEMA_VERSION, ROUTE_REFUSED,
};
use gugen::process::{Atmosphere, RouteFamily, TemperatureRange};

fn composition(pairs: &[(&str, i128)]) -> Composition {
    Composition::new(
        pairs
            .iter()
            .map(|(s, n)| (Element::new(s).unwrap(), Frac::new(*n, 1).unwrap()))
            .collect(),
    )
    .unwrap()
}

fn batio3() -> Composition {
    composition(&[("Ba", 1), ("Ti", 1), ("O", 3)])
}

fn baco3() -> Composition {
    composition(&[("Ba", 1), ("C", 1), ("O", 3)])
}

fn tio2() -> Composition {
    composition(&[("Ti", 1), ("O", 2)])
}

fn celsius(t: i128) -> TemperatureRange {
    TemperatureRange::new(Frac::new(t, 1).unwrap(), Frac::new(t, 1).unwrap()).unwrap()
}

fn observation(
    precursors: Vec<Composition>,
    temperature: i128,
    doi: &str,
    record: usize,
) -> CorpusHeatingObservation {
    CorpusHeatingObservation {
        target: batio3(),
        precursors,
        route_family: RouteFamily::ConventionalSolidState,
        heating_purpose: None,
        operation_index: 0,
        temperature: Some(celsius(temperature)),
        duration: None,
        atmosphere: Some(Atmosphere::Air),
        doi: Some(doi.to_string()),
        corpus_record_index: record,
    }
}

fn manifest(count: usize) -> CorpusManifest {
    CorpusManifest {
        source: "test corpus".to_string(),
        release: "r1".to_string(),
        schema_version: CORPUS_SNAPSHOT_SCHEMA_VERSION.to_string(),
        checksum: "none".to_string(),
        record_count: count,
    }
}

fn temperatures(corpus: &LiteratureObservationCorpus) -> Vec<(i128, usize)> {
    corpus
        .observations()
        .iter()
        .map(|o| (o.temperature.unwrap().min_celsius().numerator(), o.corpus_record_index))
        .collect()
}

#[test]
fn duplicates_collapse_to_the_lowest_record_index_in_any_entry_order() {
    let entries = || {
        vec![
            Ok(observation(vec![baco3(), tio2()], 900, "10.1/a", 7)),
            Ok(observation(vec![tio2(), baco3()], 900, "10.1/a", 3)),
            Ok(observation(vec![baco3(), tio2()], 950, "10.1/b", 5)),
        ]
    };
    let (forward, report) =
        LiteratureObservationCorpus::from_entries(manifest(3), entries(), LoadMode::Strict)
            .unwrap();
    assert_eq!(report.accepted, 3);
    assert_eq!(report.duplicates_collapsed, 1);
    assert!(report.rejected.is_empty());
    assert_eq!(forward.len(), 2);
    let mut reversed_entries = entries();
    reversed_entries.reverse();
    let (reversed, _) =
        LiteratureObservationCorpus::from_entries(manifest(3), reversed_entries, LoadMode::Strict)
            .unwrap();
    assert_eq!(temperatures(&forward), temperatures(&reversed));
    assert!(temperatures(&forward).contains(&(900, 3)));
    assert!(temperatures(&forward).contains(&(950, 5)));
}

#[test]
fn different_dois_reporting_the_same_conditions_are_both_kept() {
    let entries = vec![
        Ok(observation(vec![baco3(), tio2()], 900, "10.1/a", 1)),
        Ok(observation(vec![baco3(), tio2()], 900, "10.1/b", 2)),
    ];
    let (corpus, report) =
        LiteratureObservationCorpus::from_entries(manifest(2), entries, LoadMode::Lenient)
            .unwrap();
    assert_eq!(corpus.len(), 2);
    assert_eq!(report.duplicates_collapsed, 0);
}

#[test]
fn a_manifest_of_another_schema_is_refused_in_either_mode() {
    let mut m = manifest(0);
    m.schema_version = "v0".to_string();
    let r = LiteratureObservationCorpus::from_entries(m, vec![], LoadMode::Lenient);
    match r {
        Err(ProviderError::MalformedRecord(msg)) => assert_eq!(
            msg,
            "manifest schema_version \"v0\" is not supported by this gugen version (expects \"gugen-literature-observation-snapshot-v1\")"
        ),
        _ => panic!("expected a schema refusal"),
    }
}

#[test]
fn a_record_count_that_is_not_the_entry_count_is_refused() {
    let entries = vec![Ok(observation(vec![tio2()], 900, "10.1/a", 1))];
    let r = LiteratureObservationCorpus::from_entries(manifest(2), entries, LoadMode::Lenient);
    match r {
        Err(ProviderError::MalformedRecord(msg)) => assert_eq!(
            msg,
            "manifest declares record_count=2 but the snapshot contains 1 observation entries"
        ),
        _ => panic!("expected a record-count refusal"),
    }
}

#[test]
fn strict_mode_fails_on_the_first_refused_entry() {
    let entries = vec![
        Ok(observation(vec![tio2()], 900, "10.1/a", 1)),
        Err("missing field `target`".to_string()),
        Err("second problem".to_string()),
    ];
    let r = LiteratureObservationCorpus::from_entries(manifest(3), entries, LoadMode::Strict);
    match r {
        Err(ProviderError::MalformedRecord(msg)) => {
            assert_eq!(msg, "observation at position 1: missing field `target`")
        }
        _ => panic!("expected a strict refusal"),
    }
}

#[test]
fn lenient_mode_records_each_refusal_and_keeps_the_rest() {
    let mut mechanochemical = observation(vec![tio2()], 900, "10.1/m", 4);
    mechanochemical.route_family = RouteFamily::Mechanochemical;
    let entries = vec![
        Err("bad row".to_string()),
        Ok(observation(vec![tio2()], 900, "10.1/a", 1)),
        Ok(mechanochemical),
    ];
    let (corpus, report) =
        LiteratureObservationCorpus::from_entries(manifest(3), entries, LoadMode::Lenient)
            .unwrap();
    assert_eq!(corpus.len(), 1);
    assert_eq!(report.accepted, 1);
    assert_eq!(report.rejected.len(), 2);
    assert_eq!(report.rejected[0].position, 0);
    assert_eq!(report.rejected[0].reason, "bad row");
    assert_eq!(report.rejected[1].position, 2);
    assert_eq!(report.rejected[1].reason, ROUTE_REFUSED);
    assert!(corpus.observations()[0].heating_purpose.is_none());
}

#[test]
fn find_exact_matches_the_precursor_set_in_any_order() {
    let entries = vec![
        Ok(observation(vec![baco3(), tio2()], 900, "10.1/a", 1)),
        Ok(observation(vec![tio2()], 950, "10.1/b", 2)),
    ];
    let (corpus, _) =
        LiteratureObservationCorpus::from_entries(manifest(2), entries, LoadMode::Strict)
            .unwrap();
    let found = corpus.find_exact(
        RouteFamily::ConventionalSolidState,
        &batio3(),
        &[tio2(), baco3(), tio2()],
    );
    assert_eq!(found.len(), 1);
    assert_eq!(found[0].corpus_record_index, 1);
    assert!(corpus
        .find_exact(RouteFamily::Mechanochemical, &batio3(), &[tio2(), baco3()])
        .is_empty());
    assert!(corpus
        .find_exact(RouteFamily::ConventionalSolidState, &tio2(), &[tio2()])
        .is_empty());
    assert_eq!(corpus.manifest().record_count, 2);
    assert!(!corpus.is_empty());
}

#[test]
fn precursor_sets_hold_each_composition_once() {
    let set = precursor_set(&[tio2(), baco3(), tio2()]);
    assert_eq!(set.len(), 2);
    let again = precursor_set(&[baco3(), tio2()]);
    assert!(set.iter().zip(again.iter()).all(|(a, b)| a.same_as(b)));
}
