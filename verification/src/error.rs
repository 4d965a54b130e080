//! The one error type of what is built on the store.
use vstd::prelude::*;
use crate::types::StoreError;

verus! {

/// A result with [`KevyError`].
pub type KevyResult<T> = Result<T, KevyError>;

/// What can go wrong, but for failures of the operating system.
#[derive(Debug)]
pub enum KevyError {
    /// The store refused.
    Store(StoreError),
    /// The other side of a link answered with an error, or with nonsense.
    Protocol(String),
    /// A write was sent to a copy that is only read.
    ReadOnly,
    /// An argument is not valid.
    InvalidInput(String),
    /// A named thing is not there.
    NotFound(String),
    /// What is asked for is not to be had here.
    Unsupported(String),
    /// A call waited as long as it may.
    TimedOut,
    /// The other side of a link is gone.
    Closed,
}

/// The kinds into which the operating system sorts errors, as far as errors
/// here fall under them.
#[derive(Clone, Copy, Debug, PartialEq, Eq, Structural)]
pub enum ErrorKind {
    /// A wait was too long.
    TimedOut,
    /// A link broke.
    ConnectionAborted,
    /// An argument is not valid.
    InvalidInput,
    /// Something is not there.
    NotFound,
    /// Something cannot be done.
    Unsupported,
    /// Something must not be done.
    PermissionDenied,
    /// Data is not what it should be.
    InvalidData,
    /// Memory ran out.
    OutOfMemory,
}

impl KevyError {
    /// The error that a refusal of the store is.
    pub fn of_store(e: StoreError) -> (r: KevyError)
        ensures
            r == KevyError::Store(e),
    {
        KevyError::Store(e)
    }

    /// The kind of the error.
    pub fn kind(&self) -> (r: ErrorKind)
        ensures
            r == kind_of(*self),
    {
        match self {
            KevyError::TimedOut => ErrorKind::TimedOut,
            KevyError::Closed => ErrorKind::ConnectionAborted,
            KevyError::InvalidInput(_) => ErrorKind::InvalidInput,
            KevyError::NotFound(_) => ErrorKind::NotFound,
            KevyError::Unsupported(_) => ErrorKind::Unsupported,
            KevyError::ReadOnly => ErrorKind::PermissionDenied,
            KevyError::Protocol(_) => ErrorKind::InvalidData,
            KevyError::Store(e) => match e {
                StoreError::OutOfMemory => ErrorKind::OutOfMemory,
                _ => ErrorKind::InvalidData,
            },
        }
    }
}

/// The kind of an error.
pub open spec fn kind_of(e: KevyError) -> ErrorKind {
    match e {
        KevyError::TimedOut => ErrorKind::TimedOut,
        KevyError::Closed => ErrorKind::ConnectionAborted,
        KevyError::InvalidInput(_) => ErrorKind::InvalidInput,
        KevyError::NotFound(_) => ErrorKind::NotFound,
        KevyError::Unsupported(_) => ErrorKind::Unsupported,
        KevyError::ReadOnly => ErrorKind::PermissionDenied,
        KevyError::Protocol(_) => ErrorKind::InvalidData,
        KevyError::Store(StoreError::OutOfMemory) => ErrorKind::OutOfMemory,
        KevyError::Store(_) => ErrorKind::InvalidData,
    }
}

} // verus!
