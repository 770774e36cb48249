//! Precursor identifiers.

use vstd::prelude::*;

verus! {

/// The catalog identifier of a precursor candidate.
#[derive(Debug, Clone, PartialEq, Eq, PartialOrd, Ord, Hash)]
pub struct PrecursorId(pub String);

} // verus!
