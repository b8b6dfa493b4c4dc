use vstd::prelude::*;

verus! {

/// The failures that cache and storage operations report to their callers.
#[derive(Debug, Clone, Copy, PartialEq, Eq, Structural)]
pub enum CacheError {
    /// The storage backend could not be initialised.
    OpenFailure,
    /// The backing table could not be set up.
    SchemaFailure,
    /// A read or write statement failed.
    QueryFailure,
    /// An argument was rejected before any storage work (a negative cost, or an
    /// entry that could never fit within the cache's limits).
    InvalidArgument,
}

impl CacheError {
    /// A short human-readable description of the failure.
    pub fn message(&self) -> (r: &'static str)
        ensures
            r@.len() > 0,
    {
        proof {
            reveal_strlit("storage could not be opened");
            reveal_strlit("storage schema could not be created");
            reveal_strlit("storage query failed");
            reveal_strlit("invalid argument");
        }
        match self {
            CacheError::OpenFailure => "storage could not be opened",
            CacheError::SchemaFailure => "storage schema could not be created",
            CacheError::QueryFailure => "storage query failed",
            CacheError::InvalidArgument => "invalid argument",
        }
    }
}

} // verus!
