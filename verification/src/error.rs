//! The failure kinds surfaced by the engine and the server.

use vstd::prelude::*;
use vstd::std_specs::convert::FromSpecImpl;

verus! {

/// The error type of `serde_json`, carried through unopened.
#[verifier::external_type_specification]
#[verifier::external_body]
pub struct ExJsonError(serde_json::Error);

/// The error type of `std::io`, carried through unopened.
#[verifier::external_type_specification]
#[verifier::external_body]
pub struct ExIoError(std::io::Error);

/// Error type for the store.
#[derive(Debug)]
pub enum KvsError {
    /// An I/O failure met while mirroring the directory.
    IoError(std::io::Error),
    /// A record could not be encoded or decoded.
    SerdeError(serde_json::Error),
    /// `remove` was called on a key that is not live.
    KeyNotFound,
    /// Any other failure, such as a thread pool that could not be built.
    OtherError,
}

impl KvsError {
    /// The text of the error. That of an I/O or decoding error is the text
    /// of the error it carries.
    pub fn message(&self) -> (text: String)
        ensures
            self is KeyNotFound ==> text@ == "Key not found"@,
            self is OtherError ==> text@ == "Other Error"@,
    {
        match self {
            KvsError::IoError(e) => e.to_string(),
            KvsError::SerdeError(e) => e.to_string(),
            KvsError::KeyNotFound => "Key not found".to_string(),
            KvsError::OtherError => "Other Error".to_string(),
        }
    }
}

impl From<std::io::Error> for KvsError {
    fn from(err: std::io::Error) -> (r: KvsError) {
        KvsError::IoError(err)
    }
}

impl FromSpecImpl<std::io::Error> for KvsError {
    open spec fn obeys_from_spec() -> bool {
        true
    }

    open spec fn from_spec(err: std::io::Error) -> KvsError {
        KvsError::IoError(err)
    }
}

impl From<serde_json::Error> for KvsError {
    fn from(err: serde_json::Error) -> (r: KvsError) {
        KvsError::SerdeError(err)
    }
}

impl FromSpecImpl<serde_json::Error> for KvsError {
    open spec fn obeys_from_spec() -> bool {
        true
    }

    open spec fn from_spec(err: serde_json::Error) -> KvsError {
        KvsError::SerdeError(err)
    }
}

} // verus!
