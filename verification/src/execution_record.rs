//! What actually happened when a plan was carried out in the lab.

use vstd::prelude::*;

verus! {

#[derive(Debug, Clone, Copy, PartialEq, Eq, PartialOrd, Ord)]
pub enum DeviationCategory {
    PrecursorSubstitution,
    AmountDeviation,
    TemperatureDeviation,
    DurationDeviation,
    AtmosphereDeviation,
    SequenceDeviation,
    EquipmentDeviation,
    Other,
}

/// One way the execution departed from the plan.
#[derive(Debug, Clone, PartialEq, Eq)]
pub struct Deviation {
    pub category: DeviationCategory,
    pub description: String,
}

#[derive(Debug, Clone, Copy, PartialEq, Eq, PartialOrd, Ord)]
pub enum SynthesisOutcome {
    TargetPhaseObtained,
    PartialTargetPhase,
    CompetingPhaseObserved,
    NoReactionObserved,
    ProcessFailed,
    Inconclusive,
    NotMeasured,
}

/// Who recorded an execution, when, and with which version.
#[derive(Debug, Clone, PartialEq, Eq)]
pub struct ExecutionProvenance {
    pub gugen_version: String,
    pub recorded_by: Option<String>,
    pub recorded_at: String,
}

#[derive(Debug, Clone, Copy, PartialEq, Eq)]
pub enum ExecutionRecordLoadMode {
    Strict,
    Lenient,
}

/// Accepted count and the rejected records with their reasons.
#[derive(Debug, Clone, PartialEq, Eq)]
pub struct ExecutionRecordLoadReport {
    pub accepted: usize,
    pub rejected: Vec<(usize, String)>,
}

impl Default for ExecutionRecordLoadReport {
    fn default() -> (r: ExecutionRecordLoadReport)
        ensures
            r.accepted == 0,
            r.rejected@.len() == 0,
    {
        ExecutionRecordLoadReport { accepted: 0, rejected: Vec::new() }
    }
}

} // verus!
