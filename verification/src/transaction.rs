//! Errors of the DBMS and the behaviour of deletes on foreign keys.

use vstd::prelude::*;
use vstd::string::StringExecFns;

use crate::record::QueryError;
use crate::types::MemoryError;

verus! {

/// Errors that can occur during transaction operations.
#[derive(Debug, Clone, Copy, PartialEq, Eq)]
pub enum TransactionError {
    /// No transaction is active.
    NoActiveTransaction,
}

impl TransactionError {
    /// The message of the error.
    pub fn to_string(&self) -> (r: String)
        ensures
            r@ == "No active transaction"@,
    {
        match self {
            TransactionError::NoActiveTransaction => String::from_str("No active transaction"),
        }
    }
}

/// What a delete does to the records that reference the deleted ones through
/// foreign keys.
#[derive(Debug, Clone, Copy, PartialEq, Eq)]
pub enum DeleteBehavior {
    /// Delete only the records matching the filter; fail when references to
    /// them would be left behind.
    Restrict,
    /// Delete the referencing records too.
    Cascade,
    /// Leave the references broken.
    Break,
}

/// Errors of the DBMS.
#[derive(Debug, PartialEq, Eq)]
pub enum IcDbmsError {
    /// A memory operation failed.
    Memory(MemoryError),
    /// A transaction operation failed.
    Transaction(TransactionError),
    /// A value failed validation.
    Validation(String),
    /// A query failed.
    Query(QueryError),
}

} // verus!
