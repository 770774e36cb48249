use gugen::condition_precedents::{apply_condition_precedents, ConditionPrecedent};
use gugen::evidence::{EvidenceKind, EvidenceScope, EvidenceStrength};
use gugen::frac::Frac;
use gugen::process::{
    Atmosphere, DurationRange, HeatingPurpose, PlannedStep, ProcessStep, StepRequirement,
    TemperatureRange,
};

fn celsius(lo: i128, hi: i128) -> TemperatureRange {
    TemperatureRange::new(Frac::new(lo, 1).unwrap(), Frac::new(hi, 1).unwrap()).unwrap()
}

fn hours(lo: i128, hi: i128) -> DurationRange {
    DurationRange::new(Frac::new(lo, 1).unwrap(), Frac::new(hi, 1).unwrap()).unwrap()
}

fn condition_precedent(purpose: HeatingPurpose) -> ConditionPrecedent {
    ConditionPrecedent {
        purpose,
        temperature: Some(celsius(900, 900)),
        duration: Some(hours(2, 2)),
        atmosphere: Some(Atmosphere::Air),
        ramp: None,
        evidence_kind: EvidenceKind::CuratedLiteratureRecord,
        source_id: Some("10.0000/test".to_string()),
        statement: "test precedent".to_string(),
        strength: EvidenceStrength::Moderate,
        applicable_to: EvidenceScope::ExactTarget,
    }
}

fn calcination_step() -> PlannedStep {
    PlannedStep {
        requirement: StepRequirement::Required,
        step: ProcessStep::Heat {
            purpose: HeatingPurpose::Calcination,
            temperature: None,
            duration: None,
            atmosphere: None,
            ramp: None,
        },
    }
}

fn heat_fields(
    step: &PlannedStep,
) -> (Option<TemperatureRange>, Option<DurationRange>, Option<Atmosphere>) {
    match &step.step {
        ProcessStep::Heat { temperature, duration, atmosphere, .. } => {
            (*temperature, *duration, atmosphere.clone())
        }
        ProcessStep::Other { .. } => panic!("expected Heat step"),
    }
}

#[test]
fn apply_condition_precedents_only_fills_matching_unset_fields() {
    let mut steps = vec![
        calcination_step(),
        PlannedStep {
            requirement: StepRequirement::Required,
            step: ProcessStep::Heat {
                purpose: HeatingPurpose::Sintering,
                temperature: Some(celsius(1, 1)),
                duration: None,
                atmosphere: None,
                ramp: None,
            },
        },
    ];
    let precedents = vec![
        condition_precedent(HeatingPurpose::Calcination),
        condition_precedent(HeatingPurpose::Sintering),
    ];
    let (evidence, conflicts) = apply_condition_precedents(&mut steps, &precedents);
    assert!(conflicts.is_empty(), "no field had disagreeing precedents: {conflicts:?}");
    let (t, d, a) = heat_fields(&steps[0]);
    assert_eq!(t.unwrap().min_celsius(), Frac::new(900, 1).unwrap());
    assert_eq!(d.unwrap().min_hours(), Frac::new(2, 1).unwrap());
    assert_eq!(a, Some(Atmosphere::Air));
    let (t1, _, _) = heat_fields(&steps[1]);
    assert_eq!(
        t1.unwrap().min_celsius(),
        Frac::new(1, 1).unwrap(),
        "an already-resolved field must not be overwritten by a later precedent"
    );
    assert_eq!(evidence.len(), 2, "one evidence entry per step a precedent actually changed");
    for e in &evidence {
        assert_eq!(e.kind, EvidenceKind::CuratedLiteratureRecord);
        assert_eq!(e.source_id.as_deref(), Some("10.0000/test"));
    }
}

#[test]
fn apply_condition_precedents_ignores_a_precedent_with_no_matching_step() {
    let mut steps = vec![calcination_step()];
    let precedents = vec![condition_precedent(HeatingPurpose::Annealing)];
    let (evidence, conflicts) = apply_condition_precedents(&mut steps, &precedents);
    assert!(evidence.is_empty());
    assert!(conflicts.is_empty());
    assert!(heat_fields(&steps[0]).0.is_none());
}

#[test]
fn two_conflicting_precedents_leave_the_field_unresolved() {
    let mut steps = vec![calcination_step()];
    let precedents = vec![
        ConditionPrecedent {
            temperature: Some(celsius(900, 900)),
            source_id: Some("10.0000/first".to_string()),
            ..condition_precedent(HeatingPurpose::Calcination)
        },
        ConditionPrecedent {
            temperature: Some(celsius(1100, 1100)),
            source_id: Some("10.0000/second".to_string()),
            ..condition_precedent(HeatingPurpose::Calcination)
        },
    ];
    let (evidence, conflicts) = apply_condition_precedents(&mut steps, &precedents);
    assert!(heat_fields(&steps[0]).0.is_none());
    assert_eq!(conflicts.len(), 1);
    assert_eq!(conflicts[0].step_index, 0);
    assert_eq!(conflicts[0].field, "temperature");
    assert!(conflicts[0].reason.contains("10.0000/first"));
    assert!(conflicts[0].reason.contains("10.0000/second"));
    assert!(conflicts[0].reason.starts_with("2 matching literature precedents disagree on temperature: "));
    assert!(evidence.iter().all(|e| !e.limitations.iter().any(|l| l.contains("temperature"))));
}

#[test]
fn conflicting_precedent_detection_does_not_depend_on_input_order() {
    let forward = vec![
        ConditionPrecedent { temperature: Some(celsius(900, 900)), ..condition_precedent(HeatingPurpose::Calcination) },
        ConditionPrecedent { temperature: Some(celsius(1100, 1100)), ..condition_precedent(HeatingPurpose::Calcination) },
    ];
    let reversed: Vec<ConditionPrecedent> = forward.iter().cloned().rev().collect();
    let mut forward_steps = vec![calcination_step()];
    let (_, forward_conflicts) = apply_condition_precedents(&mut forward_steps, &forward);
    let mut reversed_steps = vec![calcination_step()];
    let (_, reversed_conflicts) = apply_condition_precedents(&mut reversed_steps, &reversed);
    assert_eq!(heat_fields(&forward_steps[0]).0, heat_fields(&reversed_steps[0]).0);
    assert!(heat_fields(&forward_steps[0]).0.is_none());
    assert_eq!(forward_conflicts.len(), reversed_conflicts.len());
    assert_eq!(forward_conflicts[0].field, reversed_conflicts[0].field);
}

#[test]
fn resolved_evidence_order_does_not_depend_on_precedent_input_order() {
    let narrow = ConditionPrecedent {
        temperature: Some(celsius(900, 900)),
        duration: None,
        atmosphere: None,
        source_id: Some("10.0000/narrow".to_string()),
        ..condition_precedent(HeatingPurpose::Calcination)
    };
    let wide = ConditionPrecedent {
        temperature: Some(celsius(900, 900)),
        duration: Some(hours(2, 2)),
        atmosphere: None,
        source_id: Some("10.0000/wide".to_string()),
        ..condition_precedent(HeatingPurpose::Calcination)
    };
    let mut forward_steps = vec![calcination_step()];
    let (forward_evidence, _) =
        apply_condition_precedents(&mut forward_steps, &[narrow.clone(), wide.clone()]);
    let mut reversed_steps = vec![calcination_step()];
    let (reversed_evidence, _) = apply_condition_precedents(&mut reversed_steps, &[wide, narrow]);
    assert_eq!(
        forward_evidence, reversed_evidence,
        "evidence must come out in the same order regardless of precedent input order"
    );
}

#[test]
fn a_conflict_on_one_field_does_not_block_resolution_of_an_agreeing_field() {
    let mut steps = vec![calcination_step()];
    let precedents = vec![
        ConditionPrecedent {
            temperature: Some(celsius(900, 900)),
            duration: Some(hours(2, 2)),
            ..condition_precedent(HeatingPurpose::Calcination)
        },
        ConditionPrecedent {
            temperature: Some(celsius(1100, 1100)),
            duration: Some(hours(2, 2)),
            ..condition_precedent(HeatingPurpose::Calcination)
        },
    ];
    let (_, conflicts) = apply_condition_precedents(&mut steps, &precedents);
    let (t, d, _) = heat_fields(&steps[0]);
    assert!(t.is_none(), "temperature genuinely conflicts");
    assert_eq!(d.unwrap().min_hours(), Frac::new(2, 1).unwrap());
    assert_eq!(conflicts.len(), 1);
    assert_eq!(conflicts[0].field, "temperature");
}

#[test]
fn two_agreeing_precedents_resolve_the_field_and_both_are_credited() {
    let mut steps = vec![calcination_step()];
    let precedents = vec![
        ConditionPrecedent {
            temperature: Some(celsius(900, 900)),
            duration: None,
            atmosphere: None,
            source_id: Some("10.0000/second".to_string()),
            ..condition_precedent(HeatingPurpose::Calcination)
        },
        ConditionPrecedent {
            temperature: Some(celsius(900, 900)),
            duration: None,
            atmosphere: None,
            source_id: Some("10.0000/first".to_string()),
            ..condition_precedent(HeatingPurpose::Calcination)
        },
    ];
    let (evidence, conflicts) = apply_condition_precedents(&mut steps, &precedents);
    assert!(conflicts.is_empty());
    assert_eq!(heat_fields(&steps[0]).0.unwrap().max_celsius(), Frac::new(900, 1).unwrap());
    let sources: Vec<&str> = evidence.iter().map(|e| e.source_id.as_deref().unwrap()).collect();
    assert_eq!(sources, vec!["10.0000/first", "10.0000/second"]);
    assert_eq!(
        evidence[0].limitations,
        vec!["resolved temperature for the Calcination step from this precedent; other unresolved \
fields on this or other steps had no matching precedent data, or matching data that conflicted \
with another precedent"
            .to_string()]
    );
}

#[test]
fn a_controlled_atmosphere_conflict_names_both_descriptions() {
    let mut steps = vec![calcination_step()];
    let precedents = vec![
        ConditionPrecedent {
            atmosphere: Some(Atmosphere::Controlled { description: "Ar".to_string() }),
            source_id: None,
            ..condition_precedent(HeatingPurpose::Calcination)
        },
        ConditionPrecedent {
            atmosphere: Some(Atmosphere::Air),
            ..condition_precedent(HeatingPurpose::Calcination)
        },
    ];
    let (_, conflicts) = apply_condition_precedents(&mut steps, &precedents);
    assert_eq!(conflicts.len(), 1);
    assert_eq!(conflicts[0].field, "atmosphere");
    assert_eq!(
        conflicts[0].reason,
        "2 matching literature precedents disagree on atmosphere: Controlled { description: \"Ar\" } \
(uncited) vs. Air (10.0000/test) -- left unresolved rather than picking one or averaging"
    );
}

#[test]
fn ranges_reject_an_inverted_interval() {
    let lo = Frac::new(10, 1).unwrap();
    let hi = Frac::new(5, 1).unwrap();
    assert!(TemperatureRange::new(lo, hi).is_err());
    assert!(TemperatureRange::new(hi, lo).is_ok());
    assert!(DurationRange::new(Frac::new(1, 2).unwrap(), Frac::new(1, 3).unwrap()).is_err());
}

#[test]
fn ranges_over_the_whole_i128_span_are_accepted() {
    let lo = Frac::new(-i128::MAX, 1).unwrap();
    let hi = Frac::new(i128::MAX, 1).unwrap();
    assert!(TemperatureRange::new(lo, hi).is_ok());
    assert!(DurationRange::new(lo, hi).is_ok());
}

#[test]
fn each_credited_precedent_gets_one_entry_naming_its_fields() {
    let mut steps = vec![calcination_step()];
    let mut only_duration = condition_precedent(HeatingPurpose::Calcination);
    only_duration.temperature = None;
    only_duration.atmosphere = None;
    only_duration.source_id = Some("10.0000/b".to_string());
    let mut full = condition_precedent(HeatingPurpose::Calcination);
    full.source_id = Some("10.0000/a".to_string());
    let (evidence, conflicts) = apply_condition_precedents(&mut steps, &[only_duration, full]);
    assert!(conflicts.is_empty());
    assert_eq!(evidence.len(), 2);
    assert_eq!(evidence[0].source_id.as_deref(), Some("10.0000/a"));
    assert!(evidence[0].limitations[0].starts_with("resolved temperature/duration/atmosphere for the Calcination step"));
    assert_eq!(evidence[1].source_id.as_deref(), Some("10.0000/b"));
    assert!(evidence[1].limitations[0].starts_with("resolved duration for the Calcination step"));
}
