use gugen::composition::{Composition, Element};
use gugen::frac::Frac;
use gugen::literature_evidence::{
    literature_evidence_limitations, CrossDoiFieldStatus, RouteObservationAssessment,
    SourcedValue, StepGroupAssessment, StepGroupKey,
};
use gugen::process::{Atmosphere, RouteFamily};

fn oxide() -> Composition {
    Composition::new(vec![
        (Element::new("Mg").unwrap(), Frac::new(1, 1).unwrap()),
        (Element::new("O").unwrap(), Frac::new(1, 1).unwrap()),
    ])
    .unwrap()
}

fn group(index: usize, dois: &[&str]) -> StepGroupAssessment {
    StepGroupAssessment {
        key: StepGroupKey { heating_operation_count: 2, operation_index: index },
        source_dois: dois.iter().map(|d| d.to_string()).collect(),
        temperature: CrossDoiFieldStatus::Unresolved,
        duration: CrossDoiFieldStatus::InsufficientIndependentSources,
        atmosphere: CrossDoiFieldStatus::Unresolved,
    }
}

fn assessment(groups: Vec<StepGroupAssessment>, shapes: bool) -> RouteObservationAssessment {
    RouteObservationAssessment {
        target: oxide(),
        precursors: vec![oxide()],
        route_family: RouteFamily::ConventionalSolidState,
        has_multiple_operation_shapes: shapes,
        observed_operation_counts: vec![2],
        step_groups: groups,
    }
}

#[test]
fn independent_dois_are_counted_once_across_step_groups() {
    let a = assessment(
        vec![group(0, &["10.1/a", "10.1/b"]), group(1, &["10.1/b", "10.1/c", "10.1/a"])],
        false,
    );
    assert_eq!(a.independent_doi_count(), 3);
    assert_eq!(assessment(Vec::new(), false).independent_doi_count(), 0);
}

#[test]
fn limitations_grow_with_shapes_and_conflicts() {
    let quiet = assessment(vec![group(0, &["10.1/a"])], false);
    assert!(!quiet.has_any_conflict());
    let base = literature_evidence_limitations(&quiet);
    assert_eq!(base.len(), 3);
    assert!(base[0].starts_with("population-level base rates only"));

    let mut disputed = group(1, &["10.1/a", "10.1/b"]);
    disputed.atmosphere = CrossDoiFieldStatus::Conflict {
        values: vec![
            SourcedValue { value: Atmosphere::Air, doi: "10.1/a".to_string() },
            SourcedValue { value: Atmosphere::Controlled { description: "O2".to_string() }, doi: "10.1/b".to_string() },
        ],
    };
    let loud = assessment(vec![group(0, &["10.1/a"]), disputed], true);
    assert!(loud.has_any_conflict());
    let all = literature_evidence_limitations(&loud);
    assert_eq!(all.len(), 5);
    assert!(all[3].starts_with("independent literature reports for this exact route"));
    assert!(all[4].starts_with("at least one field shows independent DOIs"));
}
