//! Query planning over the catalog.
pub mod decisions;
pub mod planner;
pub mod pruning;
pub mod scan;
pub mod soundness;
pub mod staging;
pub mod time_filter;
pub mod value;
