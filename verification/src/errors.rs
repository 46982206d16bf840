//! The error kinds that the engine reports. Every failure is a recoverable
//! value of this type, never a panic.

use vstd::prelude::*;

verus! {

/// One kind per class of failure; each carries a human-readable message.
#[derive(Debug, PartialEq)]
pub enum DbError {
    /// Duplicate column, missing primary-key column, invalid default or
    /// invalid autoincrement declaration.
    SchemaError(String),
    /// NOT NULL, UNIQUE, primary-key duplicate, enum/set membership or CHECK.
    ConstraintViolation(String),
    /// Value/column type disagreement or row/column-count mismatch.
    TypeMismatch(String),
    ColumnNotFound(String),
    TableNotFound(String),
    /// Double begin, or rollback/commit with no open transaction.
    TransactionStateError(String),
    /// Malformed persisted text.
    ParseError(String),
    /// Reference to a table that the catalog does not hold.
    ForeignKeyError(String),
}

impl DbError {
    /// The message that the error carries.
    pub open spec fn spec_message(&self) -> Seq<char> {
        match self {
            DbError::SchemaError(m) => m@,
            DbError::ConstraintViolation(m) => m@,
            DbError::TypeMismatch(m) => m@,
            DbError::ColumnNotFound(m) => m@,
            DbError::TableNotFound(m) => m@,
            DbError::TransactionStateError(m) => m@,
            DbError::ParseError(m) => m@,
            DbError::ForeignKeyError(m) => m@,
        }
    }

    pub fn message(&self) -> (r: &String)
        ensures
            r@ == self.spec_message(),
    {
        match self {
            DbError::SchemaError(m) => m,
            DbError::ConstraintViolation(m) => m,
            DbError::TypeMismatch(m) => m,
            DbError::ColumnNotFound(m) => m,
            DbError::TableNotFound(m) => m,
            DbError::TransactionStateError(m) => m,
            DbError::ParseError(m) => m,
            DbError::ForeignKeyError(m) => m,
        }
    }
}

} // verus!
