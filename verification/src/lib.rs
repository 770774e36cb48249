//! gugen: explainable materials synthesis planning primitives, verified.
//!
//! The library holds the exact-arithmetic core of synthesis planning:
//! exact rationals, element-validated compositions, reaction balancing by
//! exact Gauss-Jordan elimination, chemical-formula parsing, and the
//! catalog bookkeeping types that surround them.

mod numtheory;
pub mod error;
pub mod frac;
pub mod composition;
pub mod linalg;
pub mod reaction;
pub mod rref;
pub mod scaling;
pub mod balance;
pub mod text;
pub mod keyed;
pub mod lex;
pub mod clock;
pub mod doctor;
pub mod config;
pub mod evidence;
pub mod process;
pub mod literature_evidence;
pub mod literature_observations;
pub mod candidate_generator;
pub mod multi_step;
pub mod precursor;
pub mod report;
pub mod condition_precedents;
pub mod literature_conditions;
pub mod execution_record;
pub mod commercial_catalog;

pub use frac::Frac;
