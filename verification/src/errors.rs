use vstd::prelude::*;

verus! {

/// Classified errors returned by the storage engine and the key manager.
///
/// `NotFound` reports an operation that targets a nonexistent id,
/// `ValidationError` an empty required field, `IOError` a filesystem or
/// connection failure, `QueryError` a malformed statement or parameter
/// binding failure, `EncryptionKeyError` a missing or mismatched key, and
/// `IntegrityViolation` a skipped cascade step (unreachable when the cascade
/// operations below are used).
#[derive(Clone, Copy, Debug, PartialEq, Eq, Structural)]
pub enum StoreError {
    NotFound,
    ValidationError,
    IOError,
    QueryError,
    EncryptionKeyError,
    IntegrityViolation,
}

impl StoreError {
    /// A human-readable classification, surfaced verbatim across the
    /// command-layer boundary.
    pub fn message(&self) -> String {
        match self {
            StoreError::NotFound => "not found".to_string(),
            StoreError::ValidationError => "validation error".to_string(),
            StoreError::IOError => "i/o error".to_string(),
            StoreError::QueryError => "query error".to_string(),
            StoreError::EncryptionKeyError => "encryption key error".to_string(),
            StoreError::IntegrityViolation => "integrity violation".to_string(),
        }
    }
}

} // verus!
