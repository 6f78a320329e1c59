use rustymgclient::framing::frame;
use rustymgclient::packstream::encode;
use rustymgclient::MgConnection;
use rustymgclient::MgError;
use rustymgclient::MgValue;
use rustymgclient::SessionState;
use rustymgclient::Transport;

/// A scripted transport: hands out `input` byte by byte and records what was
/// written.
struct MockTransport {
    input: Vec<u8>,
    pos: usize,
    written: Vec<u8>,
}

impl MockTransport {
    fn new(input: Vec<u8>) -> MockTransport {
        MockTransport { input, pos: 0, written: Vec::new() }
    }
}

impl Transport for MockTransport {
    fn write_all(&mut self, data: &[u8]) -> Result<(), MgError> {
        self.written.extend_from_slice(data);
        Ok(())
    }

    fn read_exact(&mut self, n: usize) -> Result<Vec<u8>, MgError> {
        if self.pos + n > self.input.len() {
            return Err(MgError::Transport);
        }
        let out = self.input[self.pos..self.pos + n].to_vec();
        self.pos += n;
        Ok(out)
    }
}

fn framed(v: &MgValue) -> Vec<u8> {
    frame(encode(v).unwrap().as_slice())
}

fn success_empty() -> MgValue {
    MgValue::Structure(0x70, vec![MgValue::Dict(Vec::new())])
}

fn basic_credentials() -> Vec<(Vec<u8>, MgValue)> {
    vec![
        (b"scheme".to_vec(), MgValue::Str(b"basic".to_vec())),
        (b"principal".to_vec(), MgValue::Str(b"u".to_vec())),
        (b"credentials".to_vec(), MgValue::Str(b"p".to_vec())),
    ]
}

#[test]
fn negotiate_agrees_on_echoed_version() {
    let t = MockTransport::new(vec![0, 0, 0, 4]);
    let conn = MgConnection::connect(t, &[4, 0, 0, 0]).unwrap();
    assert_eq!(conn.bolt_version, 4);
    assert_eq!(conn.session.state, SessionState::Fresh);
    // The request on the wire: magic preamble, then the four candidates.
    assert_eq!(&conn.session.transport.written[0..4], &[0x60, 0x60, 0xB0, 0x17]);
    assert_eq!(conn.session.transport.written.len(), 20);
}

#[test]
fn negotiate_rejects_zero_version() {
    let t = MockTransport::new(vec![0, 0, 0, 0]);
    match MgConnection::connect(t, &[4, 0, 0, 0]) {
        Err(MgError::Protocol(_)) => {}
        other => panic!("expected a protocol error, got {:?}", other.map(|_| ())),
    }
}

#[test]
fn negotiate_early_close_is_protocol_error() {
    // The transport closes before the 4 reply bytes arrive.
    let t = MockTransport::new(Vec::new());
    match MgConnection::connect(t, &[4, 0, 0, 0]) {
        Err(MgError::Protocol(_)) => {}
        other => panic!("expected a protocol error, got {:?}", other.map(|_| ())),
    }
}

#[test]
fn run_in_fresh_fails_with_state_and_writes_nothing() {
    let t = MockTransport::new(vec![0, 0, 0, 4]);
    let mut conn = MgConnection::connect(t, &[4, 0, 0, 0]).unwrap();
    let written_before = conn.session.transport.written.len();
    match conn.run(b"RETURN 1".to_vec(), Vec::new()) {
        Err(MgError::State { expected, actual }) => {
            assert_eq!(expected, SessionState::Ready);
            assert_eq!(actual, SessionState::Fresh);
        }
        other => panic!("expected a state error, got {:?}", other.map(|_| ())),
    }
    assert_eq!(conn.session.state, SessionState::Fresh);
    assert_eq!(conn.session.transport.written.len(), written_before);
}

#[test]
fn pull_in_ready_fails_with_state_and_stays_ready() {
    let mut input = vec![0, 0, 0, 4];
    input.extend_from_slice(&framed(&success_empty()));
    let t = MockTransport::new(input);
    let mut conn = MgConnection::connect(t, &[4, 0, 0, 0]).unwrap();
    conn.authenticate(basic_credentials()).unwrap();
    assert_eq!(conn.session.state, SessionState::Ready);
    let handle = rustymgclient::QueryHandle { fields: Vec::new() };
    match conn.pull(&handle, 1000) {
        Err(MgError::State { expected, actual }) => {
            assert_eq!(expected, SessionState::Streaming);
            assert_eq!(actual, SessionState::Ready);
        }
        other => panic!("expected a state error, got {:?}", other.map(|_| ())),
    }
    assert_eq!(conn.session.state, SessionState::Ready);
}

#[test]
fn end_to_end_query_scenario() {
    // Server script: agreed version 4; SUCCESS for HELLO; SUCCESS with field
    // metadata for RUN; one RECORD then SUCCESS for PULL.
    let run_success = MgValue::Structure(
        0x70,
        vec![MgValue::Dict(vec![(
            b"fields".to_vec(),
            MgValue::List(vec![MgValue::Str(b"1".to_vec())]),
        )])],
    );
    let record = MgValue::Structure(0x71, vec![MgValue::List(vec![MgValue::Int(1)])]);
    let mut input = vec![0, 0, 0, 4];
    input.extend_from_slice(&framed(&success_empty()));
    input.extend_from_slice(&framed(&run_success));
    input.extend_from_slice(&framed(&record));
    input.extend_from_slice(&framed(&success_empty()));

    let t = MockTransport::new(input);
    let mut conn = MgConnection::connect(t, &[4, 0, 0, 0]).unwrap();
    assert_eq!(conn.bolt_version, 4);
    assert_eq!(conn.session.state, SessionState::Fresh);

    conn.authenticate(basic_credentials()).unwrap();
    assert_eq!(conn.session.state, SessionState::Ready);

    let handle = conn.run(b"RETURN 1".to_vec(), Vec::new()).unwrap();
    assert_eq!(conn.session.state, SessionState::Streaming);
    assert_eq!(
        handle.fields,
        vec![(
            b"fields".to_vec(),
            MgValue::List(vec![MgValue::Str(b"1".to_vec())]),
        )]
    );

    let rows = conn.pull(&handle, 1000).unwrap();
    assert_eq!(conn.session.state, SessionState::Ready);
    assert_eq!(rows, vec![MgValue::List(vec![MgValue::Int(1)])]);

    conn.close();
    assert_eq!(conn.session.state, SessionState::Closed);
}

#[test]
fn authenticate_failure_is_auth_error_and_defunct() {
    let failure = MgValue::Structure(0x7F, vec![MgValue::Dict(Vec::new())]);
    let mut input = vec![0, 0, 0, 4];
    input.extend_from_slice(&framed(&failure));
    let t = MockTransport::new(input);
    let mut conn = MgConnection::connect(t, &[4, 0, 0, 0]).unwrap();
    match conn.authenticate(basic_credentials()) {
        Err(MgError::Auth) => {}
        other => panic!("expected an auth error, got {:?}", other),
    }
    assert_eq!(conn.session.state, SessionState::Defunct);
}

#[test]
fn run_failure_is_query_error_and_recovers_to_ready() {
    let failure = MgValue::Structure(0x7F, vec![MgValue::Dict(Vec::new())]);
    let mut input = vec![0, 0, 0, 4];
    input.extend_from_slice(&framed(&success_empty())); // HELLO
    input.extend_from_slice(&framed(&failure)); // RUN fails
    input.extend_from_slice(&framed(&success_empty())); // RESET acknowledged
    let t = MockTransport::new(input);
    let mut conn = MgConnection::connect(t, &[4, 0, 0, 0]).unwrap();
    conn.authenticate(basic_credentials()).unwrap();
    match conn.run(b"RETURN oops".to_vec(), Vec::new()) {
        Err(MgError::Query) => {}
        other => panic!("expected a query error, got {:?}", other.map(|_| ())),
    }
    assert_eq!(conn.session.state, SessionState::Ready);
}

#[test]
fn transport_loss_mid_session_is_transport_error_and_defunct() {
    let mut input = vec![0, 0, 0, 4];
    input.extend_from_slice(&framed(&success_empty()));
    // Nothing scripted for the RUN answer: the stream ends.
    let t = MockTransport::new(input);
    let mut conn = MgConnection::connect(t, &[4, 0, 0, 0]).unwrap();
    conn.authenticate(basic_credentials()).unwrap();
    match conn.run(b"RETURN 1".to_vec(), Vec::new()) {
        Err(MgError::Transport) => {}
        other => panic!("expected a transport error, got {:?}", other.map(|_| ())),
    }
    assert_eq!(conn.session.state, SessionState::Defunct);
}

#[test]
fn reset_returns_session_to_ready() {
    let mut input = vec![0, 0, 0, 4];
    input.extend_from_slice(&framed(&success_empty())); // HELLO
    input.extend_from_slice(&framed(&success_empty())); // RUN
    input.extend_from_slice(&framed(&success_empty())); // RESET
    let t = MockTransport::new(input);
    let mut conn = MgConnection::connect(t, &[4, 0, 0, 0]).unwrap();
    conn.authenticate(basic_credentials()).unwrap();
    conn.run(b"RETURN 1".to_vec(), Vec::new()).unwrap();
    assert_eq!(conn.session.state, SessionState::Streaming);
    conn.reset().unwrap();
    assert_eq!(conn.session.state, SessionState::Ready);
}

#[test]
fn operations_after_close_fail_with_state() {
    let t = MockTransport::new(vec![0, 0, 0, 3]);
    let mut conn = MgConnection::connect(t, &[3, 0, 0, 0]).unwrap();
    conn.close();
    assert_eq!(conn.session.state, SessionState::Closed);
    assert!(matches!(
        conn.authenticate(Vec::new()),
        Err(MgError::State { .. })
    ));
    assert!(matches!(conn.reset(), Err(MgError::State { .. })));
    assert_eq!(conn.session.state, SessionState::Closed);
}

#[test]
fn version_one_session_uses_init_and_ack() {
    // Protocol version 1: INIT instead of HELLO, ACK_FAILURE for recovery.
    let failure = MgValue::Structure(0x7F, vec![MgValue::Dict(Vec::new())]);
    let mut input = vec![0, 0, 0, 1];
    input.extend_from_slice(&framed(&success_empty())); // INIT
    input.extend_from_slice(&framed(&failure)); // RUN fails
    input.extend_from_slice(&framed(&success_empty())); // ACK_FAILURE
    let t = MockTransport::new(input);
    let mut conn = MgConnection::connect(t, &[1, 3, 0, 0]).unwrap();
    assert_eq!(conn.bolt_version, 1);
    conn.authenticate(basic_credentials()).unwrap();
    assert_eq!(conn.session.state, SessionState::Ready);
    match conn.run(b"RETURN oops".to_vec(), Vec::new()) {
        Err(MgError::Query) => {}
        other => panic!("expected a query error, got {:?}", other.map(|_| ())),
    }
    assert_eq!(conn.session.state, SessionState::Ready);
}

#[test]
fn close_swallows_send_failure() {
    let t = MockTransport::new(vec![0, 0, 0, 4]);
    let mut conn = MgConnection::connect(t, &[4, 0, 0, 0]).unwrap();
    // The scripted input is exhausted, but close still succeeds.
    conn.close();
    assert_eq!(conn.session.state, SessionState::Closed);
}

#[test]
fn reset_refused_in_defunct() {
    // A Defunct session is terminal: reset is a State error and changes
    // nothing.
    let failure = MgValue::Structure(0x7F, vec![MgValue::Dict(Vec::new())]);
    let mut input = vec![0, 0, 0, 4];
    input.extend_from_slice(&framed(&failure));
    let t = MockTransport::new(input);
    let mut conn = MgConnection::connect(t, &[4, 0, 0, 0]).unwrap();
    assert!(matches!(conn.authenticate(basic_credentials()), Err(MgError::Auth)));
    assert_eq!(conn.session.state, SessionState::Defunct);
    match conn.reset() {
        Err(MgError::State { expected, actual }) => {
            assert_eq!(expected, SessionState::Ready);
            assert_eq!(actual, SessionState::Defunct);
        }
        other => panic!("expected a state error, got {:?}", other),
    }
    assert_eq!(conn.session.state, SessionState::Defunct);
}

#[test]
fn unknown_signature_in_answer_is_protocol_error() {
    // The RUN answer carries a structure with an unassigned signature nested
    // in its metadata: an explicit unknown-signature error, not a silent
    // pass-through.
    let bad = MgValue::Structure(
        0x70,
        vec![MgValue::Dict(vec![(
            b"oops".to_vec(),
            MgValue::Structure(0x99, Vec::new()),
        )])],
    );
    let mut input = vec![0, 0, 0, 4];
    input.extend_from_slice(&framed(&success_empty()));
    input.extend_from_slice(&framed(&bad));
    let t = MockTransport::new(input);
    let mut conn = MgConnection::connect(t, &[4, 0, 0, 0]).unwrap();
    conn.authenticate(basic_credentials()).unwrap();
    match conn.run(b"RETURN 1".to_vec(), Vec::new()) {
        Err(MgError::Protocol(b)) => assert_eq!(b, 0x99),
        other => panic!("expected a protocol error, got {:?}", other.map(|_| ())),
    }
    assert_eq!(conn.session.state, SessionState::Defunct);
}

#[test]
fn signature_table_is_version_aware() {
    // A Node entity in a record row is known at every version; a Date is
    // known from protocol version 2 on only.
    let node = MgValue::Structure(
        0x4E,
        vec![
            MgValue::Int(1),
            MgValue::List(Vec::new()),
            MgValue::Dict(Vec::new()),
        ],
    );
    let date = MgValue::Structure(0x44, vec![MgValue::Int(1)]);

    for (version, row, expect_ok) in [
        (4u8, node, true),
        (4u8, MgValue::Structure(0x44, vec![MgValue::Int(1)]), true),
        (1u8, date, false),
    ] {
        let record = MgValue::Structure(0x71, vec![MgValue::List(vec![row])]);
        let run_success = MgValue::Structure(0x70, vec![MgValue::Dict(Vec::new())]);
        let mut input = vec![0, 0, 0, version];
        input.extend_from_slice(&framed(&success_empty()));
        input.extend_from_slice(&framed(&run_success));
        input.extend_from_slice(&framed(&record));
        input.extend_from_slice(&framed(&success_empty()));
        let t = MockTransport::new(input);
        let mut conn = MgConnection::connect(t, &[version as u32, 0, 0, 0]).unwrap();
        conn.authenticate(basic_credentials()).unwrap();
        let handle = conn.run(b"RETURN x".to_vec(), Vec::new()).unwrap();
        let rows = conn.pull(&handle, 1000);
        if expect_ok {
            assert_eq!(rows.unwrap().len(), 1);
            assert_eq!(conn.session.state, SessionState::Ready);
        } else {
            assert!(matches!(rows, Err(MgError::Protocol(0x44))));
            assert_eq!(conn.session.state, SessionState::Defunct);
        }
    }
}

#[test]
fn discard_moves_streaming_back_to_ready() {
    let run_success = MgValue::Structure(0x70, vec![MgValue::Dict(Vec::new())]);
    let mut input = vec![0, 0, 0, 4];
    input.extend_from_slice(&framed(&success_empty())); // HELLO
    input.extend_from_slice(&framed(&run_success)); // RUN
    input.extend_from_slice(&framed(&success_empty())); // DISCARD
    let t = MockTransport::new(input);
    let mut conn = MgConnection::connect(t, &[4, 0, 0, 0]).unwrap();
    conn.authenticate(basic_credentials()).unwrap();
    let handle = conn.run(b"RETURN 1".to_vec(), Vec::new()).unwrap();
    conn.discard(&handle).unwrap();
    assert_eq!(conn.session.state, SessionState::Ready);
}
