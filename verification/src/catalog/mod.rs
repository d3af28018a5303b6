//! The catalog: files, their columns and their indexes.
pub mod array;
pub mod column;
pub mod config;
pub mod index;
pub mod manifest;
pub mod row_group;
pub mod snapshot;
