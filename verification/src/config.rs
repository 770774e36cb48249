//! Planning configuration.

use vstd::prelude::*;

verus! {

/// Bounds on how much of the precursor search space planning explores.
#[derive(Debug, Clone, Copy, PartialEq, Eq)]
pub struct SearchBudget {
    pub max_precursor_sets: usize,
    pub max_precursors_per_plan: usize,
    pub max_plans_returned: usize,
}

impl Default for SearchBudget {
    /// Documented starting bounds, not a scientific claim.
    fn default() -> (r: SearchBudget)
        ensures
            r.max_precursor_sets == 10000,
            r.max_precursors_per_plan == 4,
            r.max_plans_returned == 20,
    {
        SearchBudget { max_precursor_sets: 10_000, max_precursors_per_plan: 4, max_plans_returned: 20 }
    }
}

#[derive(Debug, Clone, PartialEq, Eq)]
pub struct PlanningConfig {
    pub search_budget: SearchBudget,
    pub deterministic_seed: u64,
}

impl Default for PlanningConfig {
    fn default() -> (r: PlanningConfig)
        ensures
            r.search_budget.max_precursor_sets == 10000,
            r.search_budget.max_precursors_per_plan == 4,
            r.search_budget.max_plans_returned == 20,
            r.deterministic_seed == 0,
    {
        PlanningConfig { search_budget: SearchBudget::default(), deterministic_seed: 0 }
    }
}

} // verus!
