//! The catalog: a named collection of tables with cross-table validation.

pub mod validators;
