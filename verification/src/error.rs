//! Core error type shared by the library.

use vstd::prelude::*;

verus! {

#[verifier::external_type_specification]
#[verifier::external_body]
pub struct ExIoError(std::io::Error);

#[verifier::external_type_specification]
#[verifier::external_body]
pub struct ExJsonError(serde_json::Error);

/// Core error.
#[derive(Debug)]
pub enum CoreError {
    Serialize(serde_json::Error),
    Io(std::io::Error),
    Other(String),
}

impl CoreError {
    /// Convenience constructor: an `Other` error with message `s`.
    pub fn msg(s: String) -> (r: CoreError)
        ensures
            r matches CoreError::Other(m) && m@ == s@,
    {
        CoreError::Other(s)
    }
}

/// Result alias.
pub type CoreResult<T> = Result<T, CoreError>;

} // verus!
