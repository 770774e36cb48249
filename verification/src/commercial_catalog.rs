//! Connects chemical planning output to purchasable products: catalog
//! offers, their validated scalars, exact chemical-formula parsing, and
//! scale-invariant composition matching. Catalog data never feeds back
//! into scientific planning.

pub mod formula;
pub mod matching;
pub mod search;
pub mod model;
pub mod quantity;
pub mod ranking;
pub mod policy;
pub mod fields;
pub mod loader;
pub mod json_rows;
