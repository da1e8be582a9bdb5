//! The error type of the sandbox operations.
use vstd::prelude::*;

verus! {

/// An I/O failure reported by the standard library, carried through opaquely.
#[verifier::external_type_specification]
#[verifier::external_body]
pub struct ExIoError(std::io::Error);

/// The error type of the sandbox operations.
#[derive(Debug)]
#[non_exhaustive]
pub enum Error {
    /// An underlying filesystem operation failed.
    Io(std::io::Error),
    /// The requested path, normalized, lies outside the sandbox.
    Uncontained(String),
}

impl From<std::io::Error> for Error {
    fn from(e: std::io::Error) -> (r: Error)
        ensures
            r == Error::Io(e),
    {
        Error::Io(e)
    }
}

impl vstd::std_specs::convert::FromSpecImpl<std::io::Error> for Error {
    open spec fn obeys_from_spec() -> bool {
        true
    }

    open spec fn from_spec(v: std::io::Error) -> Error {
        Error::Io(v)
    }
}

impl Error {
    /// Whether this error is a containment rejection rather than an I/O failure.
    pub fn is_uncontained(&self) -> (r: bool)
        ensures
            r == (self is Uncontained),
    {
        match self {
            Error::Uncontained(_) => true,
            Error::Io(_) => false,
        }
    }

    /// A short description of the error.
    pub fn message(&self) -> (r: String)
        ensures
            self is Io ==> r@ == "I/O error"@,
            self is Uncontained ==> r@ == "requested path is outside of the sandbox"@,
    {
        match self {
            Error::Io(_) => String::from_str("I/O error"),
            Error::Uncontained(_) => String::from_str("requested path is outside of the sandbox"),
        }
    }
}

} // verus!
