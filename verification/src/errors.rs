//! Error taxonomy of the engine.
//!
//! Remote failures (missing resource, exhausted quota, bad credential,
//! transport) are kept apart from local ones (I/O, conflicting or invalid
//! requests, unparsable metadata) so that callers can back off, re-ask or
//! surface each kind differently.

use vstd::prelude::*;

use crate::strutil::concat_str;

verus! {

/// Remaining quota of the remote metadata API, reported alongside a
/// rate-limit rejection.
#[derive(Clone, Copy, Debug, PartialEq, Eq, Structural)]
pub struct RateLimitInfo {
    /// Requests still allowed in the current window.
    pub remaining: u32,
    /// Size of the quota window.
    pub limit: u32,
    /// Unix timestamp at which the quota resets.
    pub reset_at: i64,
}

/// Failure of a call against the remote metadata API.
#[derive(Clone, Debug)]
pub enum GitHubApiError {
    /// The remote quota is exhausted; carries the reset information.
    RateLimited(RateLimitInfo),
    /// The resource or branch does not exist remotely.
    NotFound,
    /// Transport failure or timeout.
    NetworkError(String),
    /// The credential was rejected.
    Unauthorized,
    /// Any other remote failure.
    Other(String),
}

impl GitHubApiError {
    /// A short description of the failure.
    pub open spec fn spec_message(&self) -> Seq<char> {
        match self {
            GitHubApiError::RateLimited(_) => "remote rate limit exhausted"@,
            GitHubApiError::NotFound => "remote resource not found"@,
            GitHubApiError::NetworkError(m) => "network error: "@ + m@,
            GitHubApiError::Unauthorized => "authentication failed"@,
            GitHubApiError::Other(m) => m@,
        }
    }

    /// Render the short description.
    pub fn message(&self) -> (r: String)
        ensures
            r@ == self.spec_message(),
    {
        match self {
            GitHubApiError::RateLimited(_) => String::from_str("remote rate limit exhausted"),
            GitHubApiError::NotFound => String::from_str("remote resource not found"),
            GitHubApiError::NetworkError(m) => concat_str("network error: ", m.as_str()),
            GitHubApiError::Unauthorized => String::from_str("authentication failed"),
            GitHubApiError::Other(m) => m.clone(),
        }
    }
}

/// Failure of an engine operation.
#[derive(Clone, Debug)]
pub enum AppError {
    /// The named resource is not installed.
    NotFound(String),
    /// A store operation failed.
    Database(String),
    /// A configuration operation was rejected.
    Config(String),
    /// The requested change contradicts the present state.
    Conflict(String),
    /// The input was rejected before any state changed.
    InvalidInput(String),
    /// A local file operation failed.
    LocalIo(String),
    /// Metadata could not be parsed even leniently.
    Parse(String),
    /// Any other failure, described in text.
    Message(String),
}

impl AppError {
    /// The text carried by the error.
    pub open spec fn spec_text(&self) -> Seq<char> {
        match self {
            AppError::NotFound(m) => m@,
            AppError::Database(m) => m@,
            AppError::Config(m) => m@,
            AppError::Conflict(m) => m@,
            AppError::InvalidInput(m) => m@,
            AppError::LocalIo(m) => m@,
            AppError::Parse(m) => m@,
            AppError::Message(m) => m@,
        }
    }

    /// Read the text carried by the error.
    pub fn text(&self) -> (r: &str)
        ensures
            r@ == self.spec_text(),
    {
        match self {
            AppError::NotFound(m) => m.as_str(),
            AppError::Database(m) => m.as_str(),
            AppError::Config(m) => m.as_str(),
            AppError::Conflict(m) => m.as_str(),
            AppError::InvalidInput(m) => m.as_str(),
            AppError::LocalIo(m) => m.as_str(),
            AppError::Parse(m) => m.as_str(),
            AppError::Message(m) => m.as_str(),
        }
    }
}

impl AppError {
    /// Every remote failure surfaces as a `Message` carrying its
    /// description.
    pub fn from_github(e: GitHubApiError) -> (r: AppError)
        ensures
            r is Message,
            r.spec_text() == e.spec_message(),
    {
        AppError::Message(e.message())
    }
}

impl From<GitHubApiError> for AppError {
    fn from(e: GitHubApiError) -> (r: AppError) {
        AppError::from_github(e)
    }
}

impl vstd::std_specs::convert::FromSpecImpl<GitHubApiError> for AppError {
    /// What the conversion returns is stated on `AppError::from_github`,
    /// whose contract speaks of character sequences; a `String` value
    /// cannot be written down here.
    open spec fn obeys_from_spec() -> bool {
        false
    }

    open spec fn from_spec(e: GitHubApiError) -> AppError {
        arbitrary()
    }
}

} // verus!
