//! The failures of the store, and how each is surfaced to a remote caller.

use vstd::prelude::*;

verus! {

/// What a request looked for and did not find.
#[derive(Clone, Copy, Debug, PartialEq, Eq, Structural)]
pub enum Missing {
    /// A stored file or a directory.
    Path,
    /// A direct-link token.
    Token,
}

/// Why the store refuses or fails a request.
#[derive(Clone, Copy, Debug, PartialEq, Eq, Structural)]
pub enum StoreError {
    /// The access resolver denies the operation.
    AuthorizationDenied,
    /// A path, a directory or a token is absent.
    NotFound(Missing),
    /// The request is malformed.
    BadRequest,
    /// The file system or the compression failed.
    IoFailure,
    /// A call to the metadata store failed.
    UpstreamFailure,
}

impl StoreError {
    /// The HTTP status under which the failure is surfaced.
    pub open spec fn spec_http_status(self) -> u16 {
        match self {
            StoreError::AuthorizationDenied => 403,
            StoreError::NotFound(Missing::Path) => 410,
            StoreError::NotFound(Missing::Token) => 404,
            StoreError::BadRequest => 400,
            StoreError::IoFailure => 500,
            StoreError::UpstreamFailure => 500,
        }
    }

    /// The HTTP status under which the failure is surfaced: 403 for a denied
    /// operation, 410 for an absent path, 404 for an unknown token, 400 for a
    /// malformed request, and the generic 500 for the failures of the file
    /// system, of the compression and of the metadata store.
    #[verifier::when_used_as_spec(spec_http_status)]
    pub fn http_status(self) -> (status: u16)
        ensures
            status == self.spec_http_status(),
    {
        match self {
            StoreError::AuthorizationDenied => 403,
            StoreError::NotFound(Missing::Path) => 410,
            StoreError::NotFound(Missing::Token) => 404,
            StoreError::BadRequest => 400,
            StoreError::IoFailure => 500,
            StoreError::UpstreamFailure => 500,
        }
    }
}

} // verus!
