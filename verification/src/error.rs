//! The error type of the engine.

use vstd::prelude::*;
use vstd::std_specs::convert::FromSpecImpl;
use vstd::string::StringExecFns;

verus! {

/// `std::io::Error`, carried through as an opaque value.
#[verifier::external_type_specification]
#[verifier::external_body]
pub struct ExIoError(std::io::Error);

/// What an operation of the engine can fail with.
#[derive(Debug)]
pub enum KvsError {
    /// A failure of the file system under the database directory.
    Io(std::io::Error),
    /// A key was removed that the store has no value for.
    KeyNotFound,
    /// A record could not be written as JSON, or bytes could not be read as
    /// a record.
    Serde(serde_json::Error),
    /// The index pointed at a record that is not a `Set`: the log is
    /// corrupt.
    UnexpectedCommandType,
}

impl From<std::io::Error> for KvsError {
    fn from(error: std::io::Error) -> (e: KvsError) {
        KvsError::Io(error)
    }
}

impl FromSpecImpl<std::io::Error> for KvsError {
    open spec fn obeys_from_spec() -> bool {
        true
    }

    open spec fn from_spec(error: std::io::Error) -> KvsError {
        KvsError::Io(error)
    }
}

impl From<serde_json::Error> for KvsError {
    fn from(error: serde_json::Error) -> (e: KvsError) {
        KvsError::Serde(error)
    }
}

impl FromSpecImpl<serde_json::Error> for KvsError {
    open spec fn obeys_from_spec() -> bool {
        true
    }

    open spec fn from_spec(error: serde_json::Error) -> KvsError {
        KvsError::Serde(error)
    }
}

/// Calls `to_string` on a `std::io::Error`: the text that its `Display`
/// writes. Nothing is claimed about the text.
#[verifier::external_body]
fn io_error_text(error: &std::io::Error) -> String {
    error.to_string()
}

/// Calls `to_string` on a `serde_json::Error`: the text that its `Display`
/// writes. Nothing is claimed about the text.
#[verifier::external_body]
fn json_error_text(error: &serde_json::Error) -> String {
    error.to_string()
}

impl KvsError {
    /// The text that a front end shows for the error: a fixed text for the
    /// two errors of the engine's own, and the text of the error beneath
    /// for the other two.
    pub fn message(&self) -> (text: String)
        ensures
            self is KeyNotFound ==> text@ == "Key not found"@,
            self is UnexpectedCommandType ==> text@ == "Unexpected command type"@,
    {
        match self {
            KvsError::Io(error) => io_error_text(error),
            KvsError::KeyNotFound => String::from_str("Key not found"),
            KvsError::Serde(error) => json_error_text(error),
            KvsError::UnexpectedCommandType => String::from_str("Unexpected command type"),
        }
    }
}

} // verus!
