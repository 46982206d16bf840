//! An embeddable, in-process relational data engine: typed tables with
//! schema-enforced rows, secondary indexes, a programmatic query layer
//! (filters, joins, grouping, aggregation, set operations) and single-level
//! snapshot transactions.

pub mod chars;
pub mod errors;
pub mod table;
pub mod database;
