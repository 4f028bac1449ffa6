//! Errors of the store.
use crate::text::concat;
use vstd::prelude::*;

verus! {

/// Why a store operation failed.
#[derive(Debug, Clone, PartialEq, Eq)]
pub enum DbError {
    /// The storage engine refused a statement.
    Sql(String),
    /// Reading or writing the storage failed.
    Io(String),
    /// The operation breaks a rule of the store.
    OperationFailed(String),
}

/// The text of an error, as it is shown to the user.
pub open spec fn error_message(e: DbError) -> Seq<char> {
    match e {
        DbError::Sql(m) => "Błąd SQL: "@ + m@,
        DbError::Io(m) => "Błąd I/O: "@ + m@,
        DbError::OperationFailed(m) => "Błąd operacji na bazie danych: "@ + m@,
    }
}

impl DbError {
    /// The text of the error, as it is shown to the user.
    pub fn message(&self) -> (r: String)
        ensures
            r@ == error_message(*self),
    {
        match self {
            DbError::Sql(m) => concat("Błąd SQL: ", m.as_str()),
            DbError::Io(m) => concat("Błąd I/O: ", m.as_str()),
            DbError::OperationFailed(m) => concat("Błąd operacji na bazie danych: ", m.as_str()),
        }
    }
}

} // verus!
