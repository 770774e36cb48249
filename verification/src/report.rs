//! Report-level vocabulary shared by the planner's outputs.

use vstd::prelude::*;

verus! {

/// How serious a warning is.
#[derive(Debug, Clone, Copy, PartialEq, Eq, PartialOrd, Ord)]
pub enum WarningSeverity {
    Info,
    Caution,
    Severe,
}

} // verus!
