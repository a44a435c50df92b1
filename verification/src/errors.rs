//! The error taxonomy of the device manager.

use vstd::prelude::*;

verus! {

/// Errors a request handler can return to a caller; `InvalidConfig` and
/// `OutOfMemory` are fatal only during initialization.
#[derive(Clone, Copy, Debug, PartialEq, Eq, Structural)]
pub enum Error {
    /// Malformed request, missing or dangling handle, out-of-range index.
    InvalidArgs,
    /// Named logic device or physical node does not exist.
    NotFound,
    /// Sender's badge is not registered as any driver.
    PermissionDenied,
    /// Driver manifest failed to parse.
    InvalidConfig,
    /// Allocation failure.
    OutOfMemory,
    /// Feature present in the protocol but not wired.
    NotImplemented,
    /// Operation semantically rejected.
    NotSupported,
    /// Unknown (protocol, method) pair.
    InvalidMethod,
}

impl Error {
    /// The numeric code placed in the first message register of an error reply.
    pub fn code(&self) -> (c: u64)
        ensures
            c == self.spec_code(),
    {
        match self {
            Error::InvalidArgs => 1,
            Error::NotFound => 2,
            Error::PermissionDenied => 3,
            Error::InvalidConfig => 4,
            Error::OutOfMemory => 5,
            Error::NotImplemented => 6,
            Error::NotSupported => 7,
            Error::InvalidMethod => 8,
        }
    }

    pub open spec fn spec_code(&self) -> u64 {
        match self {
            Error::InvalidArgs => 1,
            Error::NotFound => 2,
            Error::PermissionDenied => 3,
            Error::InvalidConfig => 4,
            Error::OutOfMemory => 5,
            Error::NotImplemented => 6,
            Error::NotSupported => 7,
            Error::InvalidMethod => 8,
        }
    }
}

} // verus!
