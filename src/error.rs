//! Failure kinds of the gateway and the HTTP status each one maps to.
use vstd::prelude::*;

verus! {

/// A failure while serving a request. Compare-and-swap rejections are not
/// failures: they are returned as values.
#[derive(Debug)]
pub enum Error {
    /// The request's MAC does not match its contents.
    InvalidSignature,
    /// The request's expiration time lies before the current time (seconds).
    ExpiredRequest { current: u64, expiration: u64 },
    /// The signed body is shorter than the signature and timestamp prefix.
    BodyTooShort { length: usize },
    /// A text field is not valid UTF-8.
    WrongEncoding,
    /// A JSON body could not be read.
    Json,
    /// The public id in the path could not be read.
    WrongIndexPublicId,
    /// No visible index with this public id (for this caller).
    UnknownIndex(String),
    /// The tenant directory does not know the referenced project.
    UnknownProject,
    /// A payload does not follow the binary codec.
    MalformedPayload,
    /// A key given to the signature check has the wrong length.
    InvalidKey,
    /// The catalog already holds an index with this public id.
    DuplicateIndex(String),
    /// A storage backend failed or returned something unreadable.
    Storage(String),
    /// The bearer token has expired.
    TokenExpired,
    /// The bearer token could not be validated.
    Authentication(String),
    /// The server is missing a part of its configuration.
    InvalidConfiguration,
    /// Any other malformed request.
    BadRequest(String),
}

/// The HTTP status of each failure kind.
pub open spec fn status_of(e: Error) -> u16 {
    match e {
        Error::InvalidSignature => 403,
        Error::TokenExpired => 403,
        Error::UnknownProject => 404,
        Error::Storage(_) => 500,
        Error::Authentication(_) => 500,
        Error::InvalidConfiguration => 500,
        Error::DuplicateIndex(_) => 500,
        _ => 400,
    }
}

impl Error {
    /// The HTTP status code that answers this failure.
    pub fn status_code(&self) -> (r: u16)
        ensures
            r == status_of(*self),
    {
        match self {
            Error::InvalidSignature => 403,
            Error::TokenExpired => 403,
            Error::UnknownProject => 404,
            Error::Storage(_) => 500,
            Error::Authentication(_) => 500,
            Error::InvalidConfiguration => 500,
            Error::DuplicateIndex(_) => 500,
            Error::ExpiredRequest { .. } => 400,
            Error::BodyTooShort { .. } => 400,
            Error::WrongEncoding => 400,
            Error::Json => 400,
            Error::WrongIndexPublicId => 400,
            Error::UnknownIndex(_) => 400,
            Error::MalformedPayload => 400,
            Error::InvalidKey => 400,
            Error::BadRequest(_) => 400,
        }
    }
}

} // verus!
