//! The table engine: value and schema types, their mathematical model,
//! validators, indexing, queries, joins, set algebra and transactions.

pub mod data;
pub mod model;
pub mod text;
pub mod validators;
pub mod indexing;
pub mod filters;
pub mod crud;
pub mod transactions;
pub mod query;
pub mod functions;
pub mod schema;
pub mod joins;
pub mod io;
