//! Errors of the storage backends that hold save files.
//!
//! The backends themselves (random-access files and a directory of them)
//! perform I/O and live with the application; the library describes what
//! they can report.
use std::io;
use vstd::prelude::*;

verus! {

/// An I/O error reported by the operating system.
#[verifier::external_type_specification]
#[verifier::external_body]
pub struct ExIoError(io::Error);

/// Error type for backend operations.
#[derive(Debug)]
pub enum BackendError {
    /// Standard I/O error.
    Io(io::Error),
    /// File or entry not found.
    NotFound,
    /// Other backend-specific error, by its message.
    Other(String),
}

impl From<io::Error> for BackendError {
    fn from(err: io::Error) -> (r: Self) {
        BackendError::Io(err)
    }
}

impl vstd::std_specs::convert::FromSpecImpl<io::Error> for BackendError {
    open spec fn obeys_from_spec() -> bool {
        true
    }

    open spec fn from_spec(v: io::Error) -> Self {
        BackendError::Io(v)
    }
}

} // verus!
