//! Error kinds observable to callers of the protocol core.

use vstd::prelude::*;

verus! {

/// Lifecycle of one session over one transport connection.
#[derive(Debug, Clone, Copy, PartialEq, Eq, Structural)]
pub enum SessionState {
    /// Post-handshake, pre-authentication.
    Fresh,
    /// Authenticated and idle.
    Ready,
    /// A query was acknowledged; records are pending.
    Streaming,
    /// Unrecoverable protocol or transport error.
    Defunct,
    /// Goodbye sent or transport closed.
    Closed,
}

/// The closed set of error kinds the core surfaces.
#[derive(Debug, Clone, Copy, PartialEq, Eq, Structural)]
pub enum MgError {
    /// Underlying I/O failure; the session becomes `Defunct`.
    Transport,
    /// Malformed bytes: the payload is the offending marker, signature or
    /// header byte (0 where none applies, e.g. a zero negotiated version).
    Protocol(u8),
    /// The server rejected the credentials; the session becomes `Defunct`.
    Auth,
    /// The server reported a failure for a query; recoverable via `reset`.
    Query,
    /// An operation was called in a state where it is illegal; nothing is
    /// sent and the session is unaffected.
    State { expected: SessionState, actual: SessionState },
}

} // verus!
