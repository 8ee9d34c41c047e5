//! Types of std and of outside crates that values of this library carry
//! without looking inside them.

use vstd::prelude::*;

verus! {

/// `std::path::PathBuf`, carried opaquely: paths are only handed back to
/// the caller, which opens files with them.
#[verifier::external_type_specification]
#[verifier::external_body]
pub struct ExPathBuf(std::path::PathBuf);

/// `Clone::clone` of `PathBuf`: the copy holds the same path.
pub assume_specification[ <std::path::PathBuf as Clone>::clone ](p: &std::path::PathBuf) -> (r:
    std::path::PathBuf)
    ensures
        r == *p,
;

/// `std::io::Error`, carried opaquely inside `SessionError::Io`.
#[verifier::external_type_specification]
#[verifier::external_body]
pub struct ExIoError(std::io::Error);

/// `serde_json::Error`, carried opaquely inside `SessionError::Parse`.
#[verifier::external_type_specification]
#[verifier::external_body]
pub struct ExJsonError(serde_json::Error);

/// `serde_json::Value`, handed from the parser to its rewriting as a
/// `JsonValue` inside `parse_json`.
#[verifier::external_type_specification]
#[verifier::external_body]
pub struct ExJsonValue(serde_json::Value);

} // verus!
