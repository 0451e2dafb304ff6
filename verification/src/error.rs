//! Errors of the connection and of the client handle.
use vstd::prelude::*;

use crate::escaping::EscapeError;

verus! {

/// The I/O error of the standard library, carried through unchanged.
#[verifier::external_type_specification]
#[verifier::external_body]
pub struct ExIoError(std::io::Error);

/// Error returned by the connection future.
#[derive(Debug)]
pub enum ConnectionError {
    /// The remote side closed before the connection could continue.
    Closed,
    /// Underlying IO failed.
    Io(std::io::Error),
    /// Received data was not valid for the expected ServerQuery protocol state.
    Protocol(String),
    /// Escaped ServerQuery data could not be decoded.
    Escape(EscapeError),
}

/// Error returned by the client handle when the connection is no longer
/// available.
#[derive(Clone, Copy, Debug, PartialEq, Eq)]
pub struct ConnectionClosed;

} // verus!
