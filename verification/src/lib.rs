//! A small, verified inventory store: an ordered collection of product
//! records with validated `add`, `list` and `delete` operations, together
//! with an exact text codec for persisting the collection to a file.
//!
//! Monetary amounts are fixed-point integers carrying five decimal places,
//! so the sales-tax and total-price formulas are exact and every contract
//! can state them precisely.

pub mod codec;
pub mod errors;
pub mod input;
pub mod laws;
pub mod num;
pub mod product;
pub mod store;
