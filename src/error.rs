//! Failures that the engine reports.

use vstd::prelude::*;

verus! {

/// Kinds of failure. `NotFound`, `RateLimited`, `InvalidResponse`,
/// `InvalidEntry`, `UnknownKind` and `Filesystem` are fatal where they arise;
/// `NetworkTransient` and a server-side `Http` status are retried by the
/// downloader.
#[derive(Clone, Copy, Debug, PartialEq, Eq, Structural)]
pub enum ErrorKind {
    /// The resource does not exist (HTTP 404).
    NotFound,
    /// The remote refused the request for lack of quota (HTTP 403).
    RateLimited,
    /// Any other HTTP status outside the success range.
    Http(u16),
    /// The payload could not be read or broke its contract.
    InvalidResponse,
    /// Connection reset, timeout, or a stream cut short.
    NetworkTransient,
    /// A local file could not be created, opened or written.
    Filesystem,
    /// A file entry of a listing carries no download URL.
    InvalidEntry,
    /// A listing reports a kind other than file or directory.
    UnknownKind,
}

/// How the remote client classifies an HTTP status.
#[derive(Clone, Copy, Debug, PartialEq, Eq, Structural)]
pub enum StatusClass {
    Success,
    RateLimited,
    NotFound,
    OtherClientError,
    ServerError,
}

pub open spec fn status_class_spec(status: u16) -> StatusClass {
    if 200 <= status <= 299 {
        StatusClass::Success
    } else if status == 403 {
        StatusClass::RateLimited
    } else if status == 404 {
        StatusClass::NotFound
    } else if 400 <= status <= 499 {
        StatusClass::OtherClientError
    } else {
        StatusClass::ServerError
    }
}

/// Classifies an HTTP status: 2xx success, 403 rate limited, 404 not found,
/// other 4xx client errors, and everything else as a server-side failure.
pub fn classify_status(status: u16) -> (r: StatusClass)
    ensures
        r == status_class_spec(status),
{
    if 200 <= status && status <= 299 {
        StatusClass::Success
    } else if status == 403 {
        StatusClass::RateLimited
    } else if status == 404 {
        StatusClass::NotFound
    } else if 400 <= status && status <= 499 {
        StatusClass::OtherClientError
    } else {
        StatusClass::ServerError
    }
}

pub open spec fn status_error_spec(status: u16) -> Option<ErrorKind> {
    match status_class_spec(status) {
        StatusClass::Success => None,
        StatusClass::RateLimited => Some(ErrorKind::RateLimited),
        StatusClass::NotFound => Some(ErrorKind::NotFound),
        _ => Some(ErrorKind::Http(status)),
    }
}

/// The error that a listing or metadata request ends with on `status`, if any.
/// These requests are never retried.
pub fn status_error(status: u16) -> (r: Option<ErrorKind>)
    ensures
        r == status_error_spec(status),
{
    match classify_status(status) {
        StatusClass::Success => None,
        StatusClass::RateLimited => Some(ErrorKind::RateLimited),
        StatusClass::NotFound => Some(ErrorKind::NotFound),
        _ => Some(ErrorKind::Http(status)),
    }
}

} // verus!
