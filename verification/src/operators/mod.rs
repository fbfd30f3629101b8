//! Operators on collections.

pub mod consolidate;
