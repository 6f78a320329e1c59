//! The public entry point: runs the handshake over a caller-supplied
//! transport, then exposes the session operations and the negotiated
//! protocol version.

use vstd::prelude::*;
use crate::error::{MgError, SessionState};
use crate::handshake::negotiate;
use crate::packstream::enc_fits;
use crate::session::{QueryHandle, Session, hello_spec, run_spec};
use crate::value::view_entries;
use crate::transport::Transport;
use crate::value::MgValue;

verus! {

/// A connection: the agreed protocol version and the session over the
/// transport the caller supplied.
pub struct MgConnection<T> {
    pub session: Session<T>,
    pub bolt_version: u32,
}

impl<T: Transport> MgConnection<T> {
    /// Performs the handshake with the candidate versions in preference
    /// order, and on success wraps the transport in a fresh session. The
    /// negotiated version is never zero; a zero answer from the server is a
    /// `Protocol` error, a broken transport a `Transport` error.
    pub fn connect(transport: T, versions: &[u32]) -> (r: Result<MgConnection<T>, MgError>)
        ensures
            match r {
                Ok(c) => c.bolt_version != 0 && c.session.state == SessionState::Fresh
                    && c.session.bolt_version == c.bolt_version,
                Err(e) => e is Transport || e is Protocol,
            },
    {
        let mut t = transport;
        let v = match negotiate(&mut t, versions) {
            Ok(v) => v,
            Err(e) => {
                return Err(e);
            },
        };
        Ok(MgConnection { session: Session::new(t, v), bolt_version: v })
    }

    /// See [`Session::authenticate`].
    pub fn authenticate(&mut self, credentials: Vec<(Vec<u8>, MgValue)>) -> (r: Result<
        (),
        MgError,
    >)
        ensures
            (r matches Err(e) && e is State) <==> old(self).session.state != SessionState::Fresh,
            (r matches Err(e) && e is State) ==> *final(self) == *old(self),
            r matches Err(e) ==> (e is State ==> e == (MgError::State {
                expected: SessionState::Fresh,
                actual: old(self).session.state,
            })),
            r is Ok ==> final(self).session.state == SessionState::Ready,
            (r matches Err(e) && !(e is State)) ==> final(self).session.state
                == SessionState::Defunct,
            r matches Err(e) ==> (e is State || e is Auth || e is Transport || e is Protocol),
            old(self).session.state == SessionState::Fresh && !enc_fits(
                hello_spec(old(self).session.bolt_version, view_entries(credentials@)),
            ) ==> (r matches Err(e) && e is Protocol && final(self).session.state
                == SessionState::Defunct),
            final(self).bolt_version == old(self).bolt_version,
    {
        self.session.authenticate(credentials)
    }

    /// See [`Session::run`].
    pub fn run(&mut self, statement: Vec<u8>, parameters: Vec<(Vec<u8>, MgValue)>) -> (r: Result<
        QueryHandle,
        MgError,
    >)
        ensures
            (r matches Err(e) && e is State) <==> old(self).session.state != SessionState::Ready,
            (r matches Err(e) && e is State) ==> *final(self) == *old(self),
            r matches Err(e) ==> (e is State ==> e == (MgError::State {
                expected: SessionState::Ready,
                actual: old(self).session.state,
            })),
            r is Ok ==> final(self).session.state == SessionState::Streaming,
            (r matches Err(e) && e is Query) ==> final(self).session.state == SessionState::Ready,
            (r matches Err(e) && (e is Transport || e is Protocol)) ==> final(self).session.state
                == SessionState::Defunct,
            r matches Err(e) ==> (e is State || e is Query || e is Transport || e is Protocol),
            old(self).session.state == SessionState::Ready && !enc_fits(
                run_spec(old(self).session.bolt_version, statement@, view_entries(parameters@)),
            ) ==> (r matches Err(e) && e is Protocol && final(self).session.state
                == SessionState::Defunct),
            final(self).bolt_version == old(self).bolt_version,
    {
        self.session.run(statement, parameters)
    }

    /// See [`Session::pull`].
    pub fn pull(&mut self, handle: &QueryHandle, batch_size: i64) -> (r: Result<
        Vec<MgValue>,
        MgError,
    >)
        ensures
            (r matches Err(e) && e is State) <==> old(self).session.state
                != SessionState::Streaming,
            (r matches Err(e) && e is State) ==> *final(self) == *old(self),
            r matches Err(e) ==> (e is State ==> e == (MgError::State {
                expected: SessionState::Streaming,
                actual: old(self).session.state,
            })),
            r is Ok ==> final(self).session.state == SessionState::Ready,
            (r matches Err(e) && e is Query) ==> final(self).session.state == SessionState::Ready,
            (r matches Err(e) && (e is Transport || e is Protocol)) ==> final(self).session.state
                == SessionState::Defunct,
            r matches Err(e) ==> (e is State || e is Query || e is Transport || e is Protocol),
            final(self).bolt_version == old(self).bolt_version,
    {
        self.session.pull(handle, batch_size)
    }

    /// See [`Session::discard`].
    pub fn discard(&mut self, handle: &QueryHandle) -> (r: Result<(), MgError>)
        ensures
            (r matches Err(e) && e is State) <==> old(self).session.state
                != SessionState::Streaming,
            (r matches Err(e) && e is State) ==> *final(self) == *old(self),
            r matches Err(e) ==> (e is State ==> e == (MgError::State {
                expected: SessionState::Streaming,
                actual: old(self).session.state,
            })),
            r is Ok ==> final(self).session.state == SessionState::Ready,
            (r matches Err(e) && e is Query) ==> final(self).session.state == SessionState::Ready,
            (r matches Err(e) && (e is Transport || e is Protocol)) ==> final(self).session.state
                == SessionState::Defunct,
            r matches Err(e) ==> (e is State || e is Query || e is Transport || e is Protocol),
            final(self).bolt_version == old(self).bolt_version,
    {
        self.session.discard(handle)
    }

    /// See [`Session::reset`].
    pub fn reset(&mut self) -> (r: Result<(), MgError>)
        ensures
            (r matches Err(e) && e is State) <==> (old(self).session.state
                == SessionState::Closed || old(self).session.state == SessionState::Defunct),
            (r matches Err(e) && e is State) ==> *final(self) == *old(self),
            r matches Err(e) ==> (e is State ==> e == (MgError::State {
                expected: SessionState::Ready,
                actual: old(self).session.state,
            })),
            r is Ok ==> final(self).session.state == SessionState::Ready,
            (r matches Err(e) && !(e is State)) ==> final(self).session.state
                == SessionState::Defunct,
            r matches Err(e) ==> (e is State || e is Transport || e is Protocol),
            final(self).bolt_version == old(self).bolt_version,
    {
        self.session.reset()
    }

    /// See [`Session::close`].
    pub fn close(&mut self)
        ensures
            final(self).session.state == SessionState::Closed,
            final(self).bolt_version == old(self).bolt_version,
    {
        self.session.close()
    }
}

} // verus!
