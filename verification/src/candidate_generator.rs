//! Identifiers of precursor-candidate generators.

use vstd::prelude::*;

verus! {

/// A candidate generator's stable name.
#[derive(Debug, Clone, Copy, PartialEq, Eq, PartialOrd, Ord, Hash)]
pub struct GeneratorId(pub &'static str);

} // verus!
