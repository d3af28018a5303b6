//! A catalog of the files of a log store, and the planning of scans over them.
//!
//! A manifest lists the files of a stream with what is known of their columns:
//! ranges, indexes of exact values and indexes of text. By these a query leaves
//! out the files that hold no row for it.
use vstd::prelude::*;

pub mod catalog;
pub mod datetime;
pub mod expr;
pub mod float;
pub mod grams;
pub mod numeral;
pub mod query;
pub mod terms;
pub mod text;

verus! {

} // verus!
