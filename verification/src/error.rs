//! Crate-wide error types.

use vstd::prelude::*;

verus! {

/// Errors of the planning core. Construction of any validated numeric or
/// compositional value goes through checks that return this error instead
/// of panicking.
#[derive(Debug, Clone, PartialEq, Eq)]
pub enum GugenError {
    /// A range's minimum exceeds its maximum.
    InvalidRange,
    /// A composition must contain at least one element.
    EmptyComposition,
    /// The string is not one of the 118 IUPAC element symbols.
    InvalidElementSymbol(String),
    /// An element amount was zero or negative (numerator, denominator).
    NonPositiveAmount { element: String, numerator: i128, denominator: i128 },
    /// An element appeared twice where that is not allowed.
    DuplicateElement { element: String },
    /// A reaction species coefficient was zero.
    ZeroCoefficient,
    /// A reaction needs at least one reactant and one product.
    EmptyReaction,
    /// The reactant and product totals of this element differ.
    UnbalancedReaction { element: String },
    /// Exact arithmetic overflowed.
    ArithmeticOverflow,
}

/// Errors returned by external data providers. Kept apart from
/// [`GugenError`]: one provider failing must not by itself fail planning
/// that does not depend on it.
#[derive(Debug, Clone, PartialEq, Eq)]
pub enum ProviderError {
    Unavailable(String),
    MissingEntry,
    MalformedRecord(String),
}

} // verus!
