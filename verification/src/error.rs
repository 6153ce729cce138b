//! Errors of a collection.
use vstd::prelude::*;

verus! {

/// Why an operation on a collection failed.
#[derive(Debug, PartialEq)]
pub enum CollectionError {
    /// Something in the service went wrong.
    ServiceError { error: String },
    /// The operation took longer than it may.
    Timeout { seconds: usize, operation: String },
}

/// The result of an operation on a collection.
pub type CollectionResult<T> = Result<T, CollectionError>;

impl CollectionError {
    /// Whether this tells that `operation` took longer than `seconds` seconds.
    pub open spec fn is_timeout(self, seconds: usize, operation: Seq<char>) -> bool {
        match self {
            CollectionError::Timeout { seconds: s, operation: o } => s == seconds && o@
                == operation,
            CollectionError::ServiceError { .. } => false,
        }
    }

    /// The error that tells that `operation` took longer than `seconds` seconds.
    pub fn timeout(seconds: usize, operation: &str) -> (error: CollectionError)
        ensures
            error.is_timeout(seconds, operation@),
    {
        CollectionError::Timeout { seconds, operation: operation.to_owned() }
    }
}

} // verus!
