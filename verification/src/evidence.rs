//! Evidence attached to a plan: what kind, how strong, how far it applies.

use vstd::prelude::*;

verus! {

#[derive(Debug, Clone, Copy, PartialEq, Eq, PartialOrd, Ord)]
pub enum EvidenceKind {
    StoichiometricBalance,
    RuleBased,
    ThermodynamicData,
    UserProvidedPrecedent,
    CuratedLiteratureRecord,
    SimilarComposition,
    SimilarStructure,
    ProcessTemplate,
    SafetyConstraint,
}

#[derive(Debug, Clone, Copy, PartialEq, Eq, PartialOrd, Ord)]
pub enum EvidenceStrength {
    Weak,
    Moderate,
    Strong,
}

#[derive(Debug, Clone, Copy, PartialEq, Eq, PartialOrd, Ord)]
pub enum EvidenceScope {
    ExactTarget,
    SimilarMaterial,
    GeneralRule,
}

/// One piece of cited support for a plan.
#[derive(Debug, Clone, PartialEq, Eq)]
pub struct PlanningEvidence {
    pub kind: EvidenceKind,
    pub source_id: Option<String>,
    pub statement: String,
    pub strength: EvidenceStrength,
    pub applicable_to: EvidenceScope,
    pub limitations: Vec<String>,
}

} // verus!
