//! The session protocol state machine: sequences the protocol messages over
//! one transport, enforcing the legal order of operations. Every operation
//! checks the session state before touching the transport, so an illegal call
//! fails with a `State` error and leaves both the session and the transport
//! exactly as they were.

use vstd::prelude::*;
use crate::bytes::{lemma_from_be_bound, read_be};
use crate::error::{MgError, SessionState};
use crate::framing::frame;
use crate::packstream::{encode, enc_fits, lemma_pow256_values};
use crate::signatures::decode_validated;
use crate::transport::Transport;
use crate::value::{MgValue, Val, view_val, view_entries, view_vals, lemma_view_vals};

verus! {

/// What a server message means, by its structure signature.
enum ResponseKind {
    Success,
    Record,
    Ignored,
    Failure,
    Other,
}

/// Whether a value is a structure with the given signature.
pub open spec fn has_signature(v: Val, sig: u8) -> bool {
    match v {
        Val::Structure(s, _) => s == sig,
        _ => false,
    }
}

/// The client name sent in the `INIT` greeting of early protocol versions.
pub open spec fn agent_spec() -> Seq<u8> {
    seq![0x6Du8, 0x67u8]
}

/// The `n` key of a `PULL`/`DISCARD` extra map.
pub open spec fn batch_key_spec() -> Seq<u8> {
    seq![0x6Eu8]
}

/// The greeting: `INIT` with the agent name and the credential map before
/// protocol version 3, `HELLO` with the credential map alone from it on.
pub open spec fn hello_spec(version: u32, creds: Seq<(Seq<u8>, Val)>) -> Val {
    if version < 3 {
        Val::Structure(0x01, seq![Val::Str(agent_spec()), Val::Dict(creds)])
    } else {
        Val::Structure(0x01, seq![Val::Dict(creds)])
    }
}

/// The query request: `RUN` with the statement and its parameters, plus an
/// empty extra map from protocol version 3 on.
pub open spec fn run_spec(version: u32, stmt: Seq<u8>, params: Seq<(Seq<u8>, Val)>) -> Val {
    if version < 3 {
        Val::Structure(0x10, seq![Val::Str(stmt), Val::Dict(params)])
    } else {
        Val::Structure(0x10, seq![Val::Str(stmt), Val::Dict(params), Val::Dict(seq![])])
    }
}

/// The streaming request: bare `PULL` before protocol version 4, `PULL` with
/// the batch size under the `n` key from it on.
pub open spec fn pull_spec(version: u32, batch_size: i64) -> Val {
    if version >= 4 {
        Val::Structure(0x3F, seq![Val::Dict(seq![(batch_key_spec(), Val::Int(batch_size))])])
    } else {
        Val::Structure(0x3F, seq![])
    }
}

/// The discard request: bare `DISCARD` before protocol version 4, `DISCARD`
/// of all pending records (`n` = -1) from it on.
pub open spec fn discard_spec(version: u32) -> Val {
    if version >= 4 {
        Val::Structure(0x2F, seq![Val::Dict(seq![(batch_key_spec(), Val::Int(-1i64))])])
    } else {
        Val::Structure(0x2F, seq![])
    }
}

/// The failure acknowledgement: `ACK_FAILURE` before protocol version 3,
/// `RESET` from it on.
pub open spec fn ack_spec(version: u32) -> Val {
    Val::Structure(
        if version < 3 {
            0x0Eu8
        } else {
            0x0Fu8
        },
        seq![],
    )
}

/// The reset request.
pub open spec fn reset_spec() -> Val {
    Val::Structure(0x0F, seq![])
}

/// The goodbye message.
pub open spec fn goodbye_spec() -> Val {
    Val::Structure(0x02, seq![])
}

/// The metadata map of a `SUCCESS` answer: its single dictionary field, or
/// empty where the answer has another arity or shape.
pub open spec fn success_metadata_spec(v: Val) -> Seq<(Seq<u8>, Val)> {
    match v {
        Val::Structure(_, fs) => if fs.len() == 1 {
            match fs[0] {
                Val::Dict(es) => es,
                _ => seq![],
            }
        } else {
            seq![]
        },
        _ => seq![],
    }
}

/// The row a `RECORD` answer carries: its single field, or nothing where the
/// answer has another arity or shape.
pub open spec fn record_row_spec(v: Val) -> Option<Val> {
    match v {
        Val::Structure(_, fs) => if fs.len() == 1 {
            Some(fs[0])
        } else {
            None
        },
        _ => None,
    }
}

/// Handle to an acknowledged query: the metadata entries of the server's
/// `SUCCESS` answer to `RUN` (the `fields` entry lists the column names).
pub struct QueryHandle {
    pub fields: Vec<(Vec<u8>, MgValue)>,
}

/// One authenticated, stateful exchange over one transport. Operations are
/// sequential and non-reentrant; sharing a session across concurrent callers
/// needs external synchronization.
pub struct Session<T> {
    pub transport: T,
    pub state: SessionState,
    pub bolt_version: u32,
}

/// Classifies a server message by its structure signature byte.
fn classify(v: &MgValue) -> (k: ResponseKind)
    ensures
        k is Success <==> has_signature(view_val(*v), 0x70),
        k is Record <==> has_signature(view_val(*v), 0x71),
        k is Ignored <==> has_signature(view_val(*v), 0x7E),
        k is Failure <==> has_signature(view_val(*v), 0x7F),
{
    match v {
        MgValue::Structure(sig, _) => {
            if *sig == 0x70 {
                ResponseKind::Success
            } else if *sig == 0x71 {
                ResponseKind::Record
            } else if *sig == 0x7E {
                ResponseKind::Ignored
            } else if *sig == 0x7F {
                ResponseKind::Failure
            } else {
                ResponseKind::Other
            }
        },
        _ => ResponseKind::Other,
    }
}

impl<T: Transport> Session<T> {
    /// A fresh session over `transport`, before authentication.
    pub fn new(transport: T, bolt_version: u32) -> (s: Session<T>)
        ensures
            s.state == SessionState::Fresh,
            s.bolt_version == bolt_version,
            s.transport == transport,
    {
        Session { transport, state: SessionState::Fresh, bolt_version }
    }

    /// Encodes, frames and writes one message. The session state is not
    /// touched; a failure is `Protocol` (unencodable value) or `Transport`.
    fn send_message(&mut self, msg: &MgValue) -> (r: Result<(), MgError>)
        ensures
            final(self).state == old(self).state,
            final(self).bolt_version == old(self).bolt_version,
            final(self).transport.stream_bound() <= old(self).transport.stream_bound(),
            r matches Err(e) ==> e is Protocol || e is Transport,
            !enc_fits(view_val(*msg)) ==> (r matches Err(e) && e is Protocol),
    {
        let bytes = match encode(msg) {
            Ok(b) => b,
            Err(e) => {
                return Err(e);
            },
        };
        let framed = frame(bytes.as_slice());
        match self.transport.write_all(framed.as_slice()) {
            Ok(()) => Ok(()),
            Err(_) => Err(MgError::Transport),
        }
    }

    /// Reads one framed message and decodes it to a single value, validating
    /// every structure signature in it against the table for the negotiated
    /// version. The session state is not touched; a failure is `Transport`
    /// (read failed) or `Protocol` (malformed bytes, trailing bytes after
    /// the value, or an unknown signature).
    fn recv_message(&mut self) -> (r: Result<MgValue, MgError>)
        ensures
            final(self).state == old(self).state,
            final(self).bolt_version == old(self).bolt_version,
            final(self).transport.stream_bound() <= old(self).transport.stream_bound(),
            r is Ok ==> final(self).transport.stream_bound() < old(self).transport.stream_bound(),
            r matches Err(e) ==> e is Protocol || e is Transport,
    {
        let mut msg: Vec<u8> = Vec::new();
        loop
            invariant_except_break
                self.state == old(self).state,
                self.bolt_version == old(self).bolt_version,
                self.transport.stream_bound() <= old(self).transport.stream_bound(),
            ensures
                self.state == old(self).state,
                self.bolt_version == old(self).bolt_version,
                self.transport.stream_bound() < old(self).transport.stream_bound(),
            decreases self.transport.stream_bound(),
        {
            let hdr = match self.transport.read_exact(2) {
                Ok(b) => b,
                Err(_) => {
                    return Err(MgError::Transport);
                },
            };
            let n = read_be(hdr.as_slice(), 0, 2);
            proof {
                lemma_from_be_bound(hdr@.subrange(0, 2));
                lemma_pow256_values();
            }
            if n == 0 {
                break;
            }
            let mut payload = match self.transport.read_exact(n as usize) {
                Ok(b) => b,
                Err(_) => {
                    return Err(MgError::Transport);
                },
            };
            msg.append(&mut payload);
        }
        match decode_validated(self.bolt_version, msg.as_slice()) {
            Ok((v, consumed)) => {
                if consumed == msg.len() {
                    Ok(v)
                } else {
                    Err(MgError::Protocol(0))
                }
            },
            Err(e) => Err(e),
        }
    }

    /// Sends the failure acknowledgement (`ACK_FAILURE` before protocol
    /// version 3, `RESET` from it on) and reads the answer; `Ok` only on a
    /// `SUCCESS` answer.
    fn ack_failure(&mut self) -> (r: Result<(), MgError>)
        ensures
            final(self).state == old(self).state,
            final(self).bolt_version == old(self).bolt_version,
            final(self).transport.stream_bound() <= old(self).transport.stream_bound(),
            r matches Err(e) ==> e is Protocol || e is Transport,
    {
        let sig: u8 = if self.bolt_version < 3 {
            0x0E
        } else {
            0x0F
        };
        let ack = bare_message(sig);
        proof {
            assert(view_val(ack) == ack_spec(self.bolt_version));
        }
        match self.send_message(&ack) {
            Ok(()) => (),
            Err(e) => {
                return Err(e);
            },
        }
        let resp = match self.recv_message() {
            Ok(v) => v,
            Err(e) => {
                return Err(e);
            },
        };
        match classify(&resp) {
            ResponseKind::Success => Ok(()),
            _ => Err(MgError::Protocol(0)),
        }
    }

    /// Authenticates a fresh session: sends `HELLO` (`INIT` before protocol
    /// version 3) carrying the credential entries, and reads the answer.
    /// Legal only in `Fresh`: anywhere else nothing is sent and the session
    /// is unchanged. `SUCCESS` moves to `Ready`; a server `FAILURE` is an
    /// `Auth` error and any other failure `Transport` or `Protocol`, all of
    /// which leave the session `Defunct`.
    pub fn authenticate(&mut self, credentials: Vec<(Vec<u8>, MgValue)>) -> (r: Result<
        (),
        MgError,
    >)
        ensures
            (r matches Err(e) && e is State) <==> old(self).state != SessionState::Fresh,
            (r matches Err(e) && e is State) ==> *final(self) == *old(self),
            r matches Err(e) ==> (e is State ==> e == (MgError::State {
                expected: SessionState::Fresh,
                actual: old(self).state,
            })),
            r is Ok ==> final(self).state == SessionState::Ready,
            (r matches Err(e) && !(e is State)) ==> final(self).state == SessionState::Defunct,
            r matches Err(e) ==> (e is State || e is Auth || e is Transport || e is Protocol),
            old(self).state == SessionState::Fresh && !enc_fits(
                hello_spec(old(self).bolt_version, view_entries(credentials@)),
            ) ==> (r matches Err(e) && e is Protocol && final(self).state
                == SessionState::Defunct),
            final(self).bolt_version == old(self).bolt_version,
    {
        if !(self.state == SessionState::Fresh) {
            return Err(
                MgError::State { expected: SessionState::Fresh, actual: self.state },
            );
        }
        let hello = hello_message(self.bolt_version, credentials);
        proof {
            assert(view_val(hello) == hello_spec(self.bolt_version, view_entries(credentials@)));
        }
        match self.send_message(&hello) {
            Ok(()) => (),
            Err(e) => {
                self.state = SessionState::Defunct;
                return Err(e);
            },
        }
        let resp = match self.recv_message() {
            Ok(v) => v,
            Err(e) => {
                self.state = SessionState::Defunct;
                return Err(e);
            },
        };
        match classify(&resp) {
            ResponseKind::Success => {
                self.state = SessionState::Ready;
                Ok(())
            },
            ResponseKind::Failure => {
                self.state = SessionState::Defunct;
                Err(MgError::Auth)
            },
            _ => {
                self.state = SessionState::Defunct;
                Err(MgError::Protocol(0))
            },
        }
    }

    /// Submits a query: sends `RUN` with the statement and its parameters.
    /// Legal only in `Ready`: anywhere else nothing is sent and the session
    /// is unchanged. `SUCCESS` moves to `Streaming` and yields a handle with
    /// the answer's metadata; a server `FAILURE` is acknowledged and becomes
    /// a `Query` error with the session back in `Ready`; `Transport` and
    /// `Protocol` failures leave it `Defunct`.
    pub fn run(&mut self, statement: Vec<u8>, parameters: Vec<(Vec<u8>, MgValue)>) -> (r: Result<
        QueryHandle,
        MgError,
    >)
        ensures
            (r matches Err(e) && e is State) <==> old(self).state != SessionState::Ready,
            (r matches Err(e) && e is State) ==> *final(self) == *old(self),
            r matches Err(e) ==> (e is State ==> e == (MgError::State {
                expected: SessionState::Ready,
                actual: old(self).state,
            })),
            r is Ok ==> final(self).state == SessionState::Streaming,
            (r matches Err(e) && e is Query) ==> final(self).state == SessionState::Ready,
            (r matches Err(e) && (e is Transport || e is Protocol)) ==> final(self).state
                == SessionState::Defunct,
            r matches Err(e) ==> (e is State || e is Query || e is Transport || e is Protocol),
            old(self).state == SessionState::Ready && !enc_fits(
                run_spec(old(self).bolt_version, statement@, view_entries(parameters@)),
            ) ==> (r matches Err(e) && e is Protocol && final(self).state
                == SessionState::Defunct),
            final(self).bolt_version == old(self).bolt_version,
    {
        if !(self.state == SessionState::Ready) {
            return Err(
                MgError::State { expected: SessionState::Ready, actual: self.state },
            );
        }
        let request = run_message(self.bolt_version, statement, parameters);
        proof {
            assert(view_val(request) == run_spec(
                self.bolt_version,
                statement@,
                view_entries(parameters@),
            ));
        }
        match self.send_message(&request) {
            Ok(()) => (),
            Err(e) => {
                self.state = SessionState::Defunct;
                return Err(e);
            },
        }
        let resp = match self.recv_message() {
            Ok(v) => v,
            Err(e) => {
                self.state = SessionState::Defunct;
                return Err(e);
            },
        };
        match classify(&resp) {
            ResponseKind::Success => {
                let meta = success_metadata(resp);
                self.state = SessionState::Streaming;
                Ok(QueryHandle { fields: meta })
            },
            ResponseKind::Failure => {
                match self.ack_failure() {
                    Ok(()) => {
                        self.state = SessionState::Ready;
                        Err(MgError::Query)
                    },
                    Err(e) => {
                        self.state = SessionState::Defunct;
                        Err(e)
                    },
                }
            },
            _ => {
                self.state = SessionState::Defunct;
                Err(MgError::Protocol(0))
            },
        }
    }

    /// Streams the pending records: sends `PULL` (with the batch size from
    /// protocol version 4 on) and reads `RECORD` rows until the terminating
    /// answer. Legal only in `Streaming`: anywhere else nothing is sent and
    /// the session is unchanged. The terminating `SUCCESS` moves back to
    /// `Ready` and yields the rows read; a server `FAILURE` is acknowledged
    /// and becomes a `Query` error with the session back in `Ready`;
    /// `Transport` and `Protocol` failures leave it `Defunct`.
    #[verifier::loop_isolation(false)]
    pub fn pull(&mut self, handle: &QueryHandle, batch_size: i64) -> (r: Result<
        Vec<MgValue>,
        MgError,
    >)
        ensures
            (r matches Err(e) && e is State) <==> old(self).state != SessionState::Streaming,
            (r matches Err(e) && e is State) ==> *final(self) == *old(self),
            r matches Err(e) ==> (e is State ==> e == (MgError::State {
                expected: SessionState::Streaming,
                actual: old(self).state,
            })),
            r is Ok ==> final(self).state == SessionState::Ready,
            (r matches Err(e) && e is Query) ==> final(self).state == SessionState::Ready,
            (r matches Err(e) && (e is Transport || e is Protocol)) ==> final(self).state
                == SessionState::Defunct,
            r matches Err(e) ==> (e is State || e is Query || e is Transport || e is Protocol),
            final(self).bolt_version == old(self).bolt_version,
    {
        if !(self.state == SessionState::Streaming) {
            return Err(
                MgError::State { expected: SessionState::Streaming, actual: self.state },
            );
        }
        let request = if self.bolt_version >= 4 {
            batched_message(0x3F, batch_size)
        } else {
            bare_message(0x3F)
        };
        proof {
            assert(view_val(request) == pull_spec(self.bolt_version, batch_size));
        }
        match self.send_message(&request) {
            Ok(()) => (),
            Err(e) => {
                self.state = SessionState::Defunct;
                return Err(e);
            },
        }
        let mut records: Vec<MgValue> = Vec::new();
        loop
            invariant
                self.state == old(self).state,
                self.bolt_version == old(self).bolt_version,
            decreases self.transport.stream_bound(),
        {
            let resp = match self.recv_message() {
                Ok(v) => v,
                Err(e) => {
                    self.state = SessionState::Defunct;
                    return Err(e);
                },
            };
            match classify(&resp) {
                ResponseKind::Record => {
                    match record_row(resp) {
                        Some(value) => records.push(value),
                        None => {
                            self.state = SessionState::Defunct;
                            return Err(MgError::Protocol(0x71));
                        },
                    }
                },
                ResponseKind::Success => {
                    self.state = SessionState::Ready;
                    return Ok(records);
                },
                ResponseKind::Failure => {
                    match self.ack_failure() {
                        Ok(()) => {
                            self.state = SessionState::Ready;
                            return Err(MgError::Query);
                        },
                        Err(e) => {
                            self.state = SessionState::Defunct;
                            return Err(e);
                        },
                    }
                },
                _ => {
                    self.state = SessionState::Defunct;
                    return Err(MgError::Protocol(0));
                },
            }
        }
    }

    /// Asks the server to stop producing records for the current query.
    /// Legal only in `Streaming`: anywhere else nothing is sent and the
    /// session is unchanged. Acknowledgement moves back to `Ready`; a server
    /// `FAILURE` is acknowledged and becomes a `Query` error with the session
    /// in `Ready`; `Transport` and `Protocol` failures leave it `Defunct`.
    pub fn discard(&mut self, handle: &QueryHandle) -> (r: Result<(), MgError>)
        ensures
            (r matches Err(e) && e is State) <==> old(self).state != SessionState::Streaming,
            (r matches Err(e) && e is State) ==> *final(self) == *old(self),
            r matches Err(e) ==> (e is State ==> e == (MgError::State {
                expected: SessionState::Streaming,
                actual: old(self).state,
            })),
            r is Ok ==> final(self).state == SessionState::Ready,
            (r matches Err(e) && e is Query) ==> final(self).state == SessionState::Ready,
            (r matches Err(e) && (e is Transport || e is Protocol)) ==> final(self).state
                == SessionState::Defunct,
            r matches Err(e) ==> (e is State || e is Query || e is Transport || e is Protocol),
            final(self).bolt_version == old(self).bolt_version,
    {
        if !(self.state == SessionState::Streaming) {
            return Err(
                MgError::State { expected: SessionState::Streaming, actual: self.state },
            );
        }
        let request = if self.bolt_version >= 4 {
            batched_message(0x2F, -1)
        } else {
            bare_message(0x2F)
        };
        proof {
            assert(view_val(request) == discard_spec(self.bolt_version));
        }
        match self.send_message(&request) {
            Ok(()) => (),
            Err(e) => {
                self.state = SessionState::Defunct;
                return Err(e);
            },
        }
        let resp = match self.recv_message() {
            Ok(v) => v,
            Err(e) => {
                self.state = SessionState::Defunct;
                return Err(e);
            },
        };
        match classify(&resp) {
            ResponseKind::Success => {
                self.state = SessionState::Ready;
                Ok(())
            },
            ResponseKind::Failure => {
                match self.ack_failure() {
                    Ok(()) => {
                        self.state = SessionState::Ready;
                        Err(MgError::Query)
                    },
                    Err(e) => {
                        self.state = SessionState::Defunct;
                        Err(e)
                    },
                }
            },
            _ => {
                self.state = SessionState::Defunct;
                Err(MgError::Protocol(0))
            },
        }
    }

    /// Forces the session back to `Ready`, discarding any in-flight
    /// streaming state; the recovery path from a `Query` error. Legal in
    /// `Fresh`, `Ready` and `Streaming`: a `Closed` or `Defunct` session is
    /// terminal — nothing is sent, the session is unchanged, and the only
    /// recovery is a fresh connection. `Transport` and `Protocol` failures
    /// leave the session `Defunct`.
    pub fn reset(&mut self) -> (r: Result<(), MgError>)
        ensures
            (r matches Err(e) && e is State) <==> (old(self).state == SessionState::Closed
                || old(self).state == SessionState::Defunct),
            (r matches Err(e) && e is State) ==> *final(self) == *old(self),
            r matches Err(e) ==> (e is State ==> e == (MgError::State {
                expected: SessionState::Ready,
                actual: old(self).state,
            })),
            r is Ok ==> final(self).state == SessionState::Ready,
            (r matches Err(e) && !(e is State)) ==> final(self).state == SessionState::Defunct,
            r matches Err(e) ==> (e is State || e is Transport || e is Protocol),
            final(self).bolt_version == old(self).bolt_version,
    {
        if self.state == SessionState::Closed || self.state == SessionState::Defunct {
            return Err(
                MgError::State { expected: SessionState::Ready, actual: self.state },
            );
        }
        let request = bare_message(0x0F);
        proof {
            assert(view_val(request) == reset_spec());
        }
        match self.send_message(&request) {
            Ok(()) => (),
            Err(e) => {
                self.state = SessionState::Defunct;
                return Err(e);
            },
        }
        let resp = match self.recv_message() {
            Ok(v) => v,
            Err(e) => {
                self.state = SessionState::Defunct;
                return Err(e);
            },
        };
        match classify(&resp) {
            ResponseKind::Success => {
                self.state = SessionState::Ready;
                Ok(())
            },
            _ => {
                self.state = SessionState::Defunct;
                Err(MgError::Protocol(0))
            },
        }
    }

    /// Ends the session: sends `GOODBYE` best-effort (from protocol version
    /// 3 on; a send failure is swallowed) and moves to `Closed`, whatever
    /// state the session was in.
    pub fn close(&mut self)
        ensures
            final(self).state == SessionState::Closed,
            final(self).bolt_version == old(self).bolt_version,
    {
        if !(self.state == SessionState::Closed) && !(self.state == SessionState::Defunct)
            && self.bolt_version >= 3 {
            let goodbye = bare_message(0x02);
            proof {
                assert(view_val(goodbye) == goodbye_spec());
            }
            let _ = self.send_message(&goodbye);
        }
        self.state = SessionState::Closed;
    }
}

/// The client name sent in the `INIT` greeting of early protocol versions.
fn agent_name() -> (r: Vec<u8>)
    ensures
        r@ == agent_spec(),
{
    let mut v: Vec<u8> = Vec::new();
    v.push(0x6Du8);
    v.push(0x67u8);
    proof {
        assert(v@ =~= agent_spec());
    }
    v
}

/// The `n` key of a `PULL`/`DISCARD` extra map.
fn batch_key() -> (r: Vec<u8>)
    ensures
        r@ == batch_key_spec(),
{
    let mut v: Vec<u8> = Vec::new();
    v.push(0x6Eu8);
    proof {
        assert(v@ =~= batch_key_spec());
    }
    v
}

/// Builds the greeting of [`hello_spec`].
fn hello_message(version: u32, credentials: Vec<(Vec<u8>, MgValue)>) -> (m: MgValue)
    ensures
        view_val(m) == hello_spec(version, view_entries(credentials@)),
{
    let ghost creds = credentials@;
    let mut fields: Vec<MgValue> = Vec::new();
    if version < 3 {
        fields.push(MgValue::Str(agent_name()));
    }
    fields.push(MgValue::Dict(credentials));
    let ghost fseq = fields@;
    let m = MgValue::Structure(0x01, fields);
    proof {
        lemma_view_vals(fseq);
        if version < 3 {
            assert(view_vals(fseq) =~= seq![
                Val::Str(agent_spec()),
                Val::Dict(view_entries(creds)),
            ]);
        } else {
            assert(view_vals(fseq) =~= seq![Val::Dict(view_entries(creds))]);
        }
    }
    m
}

/// Builds the query request of [`run_spec`].
fn run_message(version: u32, statement: Vec<u8>, parameters: Vec<(Vec<u8>, MgValue)>) -> (m:
    MgValue)
    ensures
        view_val(m) == run_spec(version, statement@, view_entries(parameters@)),
{
    let ghost stmt = statement@;
    let ghost params = parameters@;
    let mut fields: Vec<MgValue> = Vec::new();
    fields.push(MgValue::Str(statement));
    fields.push(MgValue::Dict(parameters));
    if version >= 3 {
        fields.push(MgValue::Dict(Vec::new()));
    }
    let ghost fseq = fields@;
    let m = MgValue::Structure(0x10, fields);
    proof {
        lemma_view_vals(fseq);
        if version < 3 {
            assert(view_vals(fseq) =~= seq![Val::Str(stmt), Val::Dict(view_entries(params))]);
        } else {
            assert(view_vals(fseq) =~= seq![
                Val::Str(stmt),
                Val::Dict(view_entries(params)),
                Val::Dict(Seq::<(Seq<u8>, Val)>::empty()),
            ]);
            assert(Val::Dict(Seq::<(Seq<u8>, Val)>::empty()) == Val::Dict(
                view_entries(Seq::<(Vec<u8>, MgValue)>::empty()),
            ));
        }
    }
    m
}

/// Builds a one-entry extra map carrying `n` under the batch key, wrapped as
/// the single field of a structure with the given signature.
fn batched_message(sig: u8, n: i64) -> (m: MgValue)
    ensures
        view_val(m) == Val::Structure(
            sig,
            seq![Val::Dict(seq![(batch_key_spec(), Val::Int(n))])],
        ),
{
    let mut extra: Vec<(Vec<u8>, MgValue)> = Vec::new();
    extra.push((batch_key(), MgValue::Int(n)));
    let ghost eseq = extra@;
    let mut fields: Vec<MgValue> = Vec::new();
    fields.push(MgValue::Dict(extra));
    let ghost fseq = fields@;
    let m = MgValue::Structure(sig, fields);
    proof {
        lemma_view_vals(fseq);
        crate::value::lemma_view_entries(eseq);
        assert(view_entries(eseq) =~~= seq![(batch_key_spec(), Val::Int(n))]);
        assert(view_vals(fseq) =~= seq![Val::Dict(view_entries(eseq))]);
    }
    m
}

/// Builds a structure with the given signature and no fields (`PULL`,
/// `DISCARD`, `RESET`, `ACK_FAILURE`, `GOODBYE` shapes).
fn bare_message(sig: u8) -> (m: MgValue)
    ensures
        view_val(m) == Val::Structure(sig, Seq::<Val>::empty()),
{
    let fields: Vec<MgValue> = Vec::new();
    let ghost fseq = fields@;
    let m = MgValue::Structure(sig, fields);
    proof {
        lemma_view_vals(fseq);
        assert(view_vals(fseq) =~= Seq::<Val>::empty());
    }
    m
}

/// Extracts the metadata of [`success_metadata_spec`] from a `SUCCESS`
/// answer.
fn success_metadata(v: MgValue) -> (m: Vec<(Vec<u8>, MgValue)>)
    ensures
        view_entries(m@) == success_metadata_spec(view_val(v)),
{
    let ghost vv = view_val(v);
    match v {
        MgValue::Structure(_, mut flds) => {
            proof {
                lemma_view_vals(flds@);
            }
            if flds.len() == 1 {
                match flds.pop() {
                    Some(MgValue::Dict(entries)) => entries,
                    _ => {
                        proof {
                            assert(view_entries(Seq::<(Vec<u8>, MgValue)>::empty()) =~= Seq::<
                                (Seq<u8>, Val),
                            >::empty());
                        }
                        Vec::new()
                    },
                }
            } else {
                proof {
                    assert(view_entries(Seq::<(Vec<u8>, MgValue)>::empty()) =~= Seq::<
                        (Seq<u8>, Val),
                    >::empty());
                }
                Vec::new()
            }
        },
        _ => {
            proof {
                assert(view_entries(Seq::<(Vec<u8>, MgValue)>::empty()) =~= Seq::<
                    (Seq<u8>, Val),
                >::empty());
            }
            Vec::new()
        },
    }
}

/// Extracts the row of [`record_row_spec`] from a `RECORD` answer.
fn record_row(v: MgValue) -> (r: Option<MgValue>)
    ensures
        match r {
            Some(row) => record_row_spec(view_val(v)) == Some(view_val(row)),
            None => record_row_spec(view_val(v)) is None,
        },
{
    match v {
        MgValue::Structure(_, mut flds) => {
            proof {
                lemma_view_vals(flds@);
            }
            if flds.len() == 1 {
                flds.pop()
            } else {
                None
            }
        },
        _ => None,
    }
}

} // verus!
