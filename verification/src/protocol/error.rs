//! Errors raised while a protocol runs.

use vstd::prelude::*;

verus! {

/// `std::io::ErrorKind`, the category of an I/O error, carried through as
/// it is.
#[verifier::external_type_specification]
#[verifier::external_body]
pub struct ExIoErrorKind(std::io::ErrorKind);

/// `std::io::Error`, an I/O error, of which only the category is kept.
#[verifier::external_type_specification]
#[verifier::external_body]
pub struct ExIoError(std::io::Error);

/// A failure of the transport or of a protocol's own rules.
#[derive(Debug, Clone, Copy, PartialEq, Eq, Hash, PartialOrd, Ord)]
pub enum Error {
    IOError(std::io::ErrorKind),
    MPCError(MPCErrorKind),
}

/// The algorithmic failures; more kinds may be added.
#[derive(Debug, Clone, Copy, PartialEq, Eq, Hash, PartialOrd, Ord)]
#[non_exhaustive]
pub enum MPCErrorKind {
    /// Too few shares are present to recover a secret.
    InsufficientShares,
    /// The threshold, the number of shares and the field do not go
    /// together.
    InvalidParameters,
}

/// The category of an I/O error, as `std::io::Error::kind` gives it.
pub uninterp spec fn io_kind(err: std::io::Error) -> std::io::ErrorKind;

/// `std::io::Error::kind`: the category of an I/O error, which the error
/// alone determines. The category is claimed to be the named one, and
/// nothing of which it is.
#[verifier::external_body]
fn io_error_kind(err: &std::io::Error) -> (r: std::io::ErrorKind)
    ensures
        r == io_kind(*err),
{
    err.kind()
}

impl Error {
    /// The failure of the transport of the category `kind`.
    pub fn from_kind(kind: std::io::ErrorKind) -> (r: Self)
        ensures
            r == Error::IOError(kind),
    {
        Error::IOError(kind)
    }
}

/// An I/O error is kept by its category.
impl From<std::io::Error> for Error {
    fn from(err: std::io::Error) -> (r: Self)
        ensures
            r == Error::IOError(io_kind(err)),
    {
        Error::from_kind(io_error_kind(&err))
    }
}

impl vstd::std_specs::convert::FromSpecImpl<std::io::Error> for Error {
    open spec fn obeys_from_spec() -> bool {
        true
    }

    open spec fn from_spec(err: std::io::Error) -> Self {
        Error::IOError(io_kind(err))
    }
}

pub type Result<T> = std::result::Result<T, Error>;

} // verus!
