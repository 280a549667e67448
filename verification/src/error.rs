//! Shared error type surfaced to callers of the library.
//!
//! Centralising the variants here lets callers branch on the failure kind
//! while still returning typed responses at the transport layer.

use vstd::prelude::*;
use vstd::string::StringExecFns;

verus! {

/// Failure kinds the gateway reports.
#[derive(Clone, Debug, PartialEq)]
pub enum Error {
    /// An input/output failure, with its description.
    IOError(String),
    /// The caller's request was malformed or cannot be served.
    BadRequestError(String),
    /// A numeric field could not be parsed exactly.
    FloatParsingFailed(String),
    /// The venue reported an error.
    HyperliquidError(String),
    /// Any other failure.
    UnexpectedError(String),
}

impl Error {
    /// Map each error variant to an HTTP status code so transport-level
    /// semantics remain consistent.
    pub fn status_code(&self) -> (r: u16)
        ensures
            r == 400 <==> self is BadRequestError,
            !(self is BadRequestError) ==> r == 500,
    {
        match self {
            Error::BadRequestError(_) => 400,
            _ => 500,
        }
    }

    /// The human-readable message carried by the error.
    pub fn message(&self) -> (r: String)
        ensures
            match self {
                Error::IOError(m) => r@ == m@,
                Error::BadRequestError(m) => r@ == m@,
                Error::FloatParsingFailed(m) => r@ == m@,
                Error::HyperliquidError(m) => r@ == m@,
                Error::UnexpectedError(m) => r@ == m@,
            },
    {
        match self {
            Error::IOError(m) => m.clone(),
            Error::BadRequestError(m) => m.clone(),
            Error::FloatParsingFailed(m) => m.clone(),
            Error::HyperliquidError(m) => m.clone(),
            Error::UnexpectedError(m) => m.clone(),
        }
    }
}

/// Build a bad-request error from a static description.
pub fn bad_request(msg: &str) -> (r: Error)
    ensures
        r is BadRequestError,
        r->BadRequestError_0@ == msg@,
{
    Error::BadRequestError(String::from_str(msg))
}

} // verus!
