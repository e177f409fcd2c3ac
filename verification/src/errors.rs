//! The failures that queries and ingestion report.

use vstd::prelude::*;

verus! {

/// The kind of a failure: which variant of `QueryError` it is.
pub enum ErrorKind {
    Fatal,
    NotImplemented,
    Type,
}

/// Failure reported to the caller of a query or of an ingestion step.
///
/// Every variant carries a human readable description; the contracts of this
/// crate only speak of the variant.
#[derive(Debug, Clone)]
pub enum QueryError {
    /// An invariant was violated: column lengths differ, two batch results
    /// have incompatible shapes, or a packed string arena overflowed.
    FatalError(String),
    /// A merge primitive was asked to work on a pair of types it does not support.
    NotImplemented(String),
    /// An operator found a buffer of another type than the one it was wired to.
    TypeError(String),
}

impl QueryError {
    /// The kind of the failure.
    pub open spec fn kind(self) -> ErrorKind {
        match self {
            QueryError::FatalError(_) => ErrorKind::Fatal,
            QueryError::NotImplemented(_) => ErrorKind::NotImplemented,
            QueryError::TypeError(_) => ErrorKind::Type,
        }
    }

    /// The description carried by the error, as text.
    pub open spec fn text(self) -> Seq<char> {
        match self {
            QueryError::FatalError(s) => s@,
            QueryError::NotImplemented(s) => s@,
            QueryError::TypeError(s) => s@,
        }
    }

    /// The description carried by the error.
    pub fn message(&self) -> (m: &String)
        ensures
            m == match *self {
                QueryError::FatalError(s) => s,
                QueryError::NotImplemented(s) => s,
                QueryError::TypeError(s) => s,
            },
    {
        match self {
            QueryError::FatalError(s) => s,
            QueryError::NotImplemented(s) => s,
            QueryError::TypeError(s) => s,
        }
    }
}

} // verus!
