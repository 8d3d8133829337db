use peachdb::db::db::State;
use peachdb::db::{Wal, WalEntry};
use peachdb::dtypes::{Field, Key, Primitive};
use peachdb::error::{IoKind, PeachDbError};
use peachdb::server::protocol::{ProtocolDecoder, ProtocolEncoder};
use peachdb::server::server::{
    connection_step, handle_request, logged_response, request_or_invalid, response_frame, ConnAction, ConnEvent,
    RequestStep,
};
use peachdb::server::{Request, Response};

// ── a server over an in-memory state ─────────────────────────────────────────────────────────

struct MemServer {
    state: State,
    wal: Wal,
}

impl MemServer {
    fn new() -> MemServer {
        MemServer { state: State::new(), wal: Wal::new() }
    }

    fn answer(&mut self, req: Request) -> Response {
        match handle_request(&self.state, req) {
            RequestStep::Respond(res) => res,
            RequestStep::Log(entry) => {
                self.wal.append_entry(entry.clone());
                self.state.apply_entry(entry);
                logged_response(Ok(()))
            }
        }
    }

    /// Runs the connection's steps over one framed message, as the server's loop does, and reads
    /// the framed answer back.
    fn exchange(&mut self, frame: &[u8]) -> Response {
        let mut action = connection_step(ConnEvent::LenRead(frame[0..4].to_vec()));
        loop {
            action = match action {
                ConnAction::ReadMsg(len) => {
                    if frame.len() < 4 + len {
                        connection_step(ConnEvent::MsgShort)
                    } else {
                        connection_step(ConnEvent::MsgRead(frame[4..4 + len].to_vec()))
                    }
                }
                ConnAction::Answer(req) => {
                    let res = self.answer(req);
                    connection_step(ConnEvent::Answered(res))
                }
                ConnAction::Send { frame: out, .. } => {
                    let out_len = u32::from_be_bytes([out[0], out[1], out[2], out[3]]) as usize;
                    assert_eq!(out_len, out.len() - 4);
                    return ProtocolDecoder::new(&out[4..]).decode_response().expect("decode response");
                }
                a => panic!("unexpected step {:?}", a),
            };
        }
    }
}

fn request_frame(req: &Request) -> Vec<u8> {
    let mut enc = ProtocolEncoder::new();
    enc.encode_request(req);
    enc.frame()
}

// ── handle_request ───────────────────────────────────────────────────────────────────────────

#[test]
fn handle_request_ping() {
    let mut srv = MemServer::new();
    match srv.answer(Request::Ping) {
        Response::Success(None) => {}
        r => panic!("expected Success(None), got {:?}", r),
    }
}

#[test]
fn handle_request_get_missing_key() {
    let mut srv = MemServer::new();
    match srv.answer(Request::Get { key: Key::from("no-such-key") }) {
        Response::NotFound => {}
        r => panic!("expected NotFound, got {:?}", r),
    }
}

#[test]
fn handle_request_set_then_get() {
    let mut srv = MemServer::new();
    let key = Key::from("k1");
    let field = Field::Primitive(Primitive::Integer(99));
    match srv.answer(Request::SetField { key: key.clone(), field }) {
        Response::Success(None) => {}
        r => panic!("expected Success(None) from set, got {:?}", r),
    }
    match srv.answer(Request::Get { key }) {
        Response::Success(Some(Field::Primitive(Primitive::Integer(n)))) => assert_eq!(n, 99),
        r => panic!("expected Success(Some(Integer(99))), got {:?}", r),
    }
    assert_eq!(srv.wal.pop_uncommited_entries().len(), 1);
}

#[test]
fn handle_request_del_existing() {
    let mut srv = MemServer::new();
    let key = Key::from("del-me");
    srv.state.set(key.clone(), Field::Primitive(Primitive::Boolean(true)));
    match srv.answer(Request::Del { key: key.clone() }) {
        Response::Success(None) => {}
        r => panic!("expected Success(None) from del, got {:?}", r),
    }
    match srv.answer(Request::Get { key }) {
        Response::NotFound => {}
        r => panic!("expected NotFound after delete, got {:?}", r),
    }
}

#[test]
fn handle_request_del_missing_key_is_ok() {
    let mut srv = MemServer::new();
    match srv.answer(Request::Del { key: Key::from("ghost") }) {
        Response::Success(None) => {}
        r => panic!("expected Success(None), got {:?}", r),
    }
}

#[test]
fn handle_request_keys_empty() {
    let mut srv = MemServer::new();
    match srv.answer(Request::Keys) {
        Response::Keys(ks) => assert!(ks.is_empty()),
        r => panic!("expected Keys([]), got {:?}", r),
    }
}

#[test]
fn handle_request_keys_after_set() {
    let mut srv = MemServer::new();
    let key = Key::from("alpha");
    srv.state.set(key.clone(), Field::Primitive(Primitive::Integer(1)));
    match srv.answer(Request::Keys) {
        Response::Keys(ks) => {
            assert_eq!(ks.len(), 1);
            assert_eq!(ks[0].as_bytes(), key.as_bytes());
        }
        r => panic!("expected Keys([alpha]), got {:?}", r),
    }
}

#[test]
fn handle_request_set_and_del_are_logged() {
    let state = State::new();
    match handle_request(&state, Request::SetField { key: Key::from("s"), field: Field::Raw(vec![9]) }) {
        RequestStep::Log(WalEntry::SetField(k, Field::Raw(b))) => {
            assert_eq!(k.as_bytes(), b"s");
            assert_eq!(b, vec![9]);
        }
        s => panic!("expected a logged set, got {:?}", s),
    }
    match handle_request(&state, Request::Del { key: Key::from("d") }) {
        RequestStep::Log(WalEntry::Delete(k)) => assert_eq!(k.as_bytes(), b"d"),
        s => panic!("expected a logged delete, got {:?}", s),
    }
}

// ── what a connection sends back ─────────────────────────────────────────────────────────────

#[test]
fn connection_ping_roundtrip() {
    let mut srv = MemServer::new();
    match srv.exchange(&request_frame(&Request::Ping)) {
        Response::Success(None) => {}
        r => panic!("expected Success(None), got {:?}", r),
    }
}

#[test]
fn connection_set_get_roundtrip() {
    let mut srv = MemServer::new();
    let key = Key::from("tcp-key");
    let field = Field::Primitive(Primitive::String("tcp-val".to_string()));
    match srv.exchange(&request_frame(&Request::SetField { key: key.clone(), field })) {
        Response::Success(None) => {}
        r => panic!("expected Success(None) from set, got {:?}", r),
    }
    match srv.exchange(&request_frame(&Request::Get { key })) {
        Response::Success(Some(Field::Primitive(Primitive::String(s)))) => assert_eq!(s, "tcp-val"),
        r => panic!("expected Success(Some(String)), got {:?}", r),
    }
}

#[test]
fn connection_invalid_request_continues() {
    let mut srv = MemServer::new();
    let bad_payload = vec![0xFF, 0x01];
    let mut bad_frame = (bad_payload.len() as u32).to_be_bytes().to_vec();
    bad_frame.extend(bad_payload);
    match srv.exchange(&bad_frame) {
        Response::InvalidRequest => {}
        r => panic!("expected InvalidRequest, got {:?}", r),
    }
    match srv.exchange(&request_frame(&Request::Ping)) {
        Response::Success(None) => {}
        r => panic!("expected Success(None) after recovery, got {:?}", r),
    }
}

#[test]
fn connection_keys_roundtrip() {
    let mut srv = MemServer::new();
    let key = Key::from("key-a");
    srv.exchange(&request_frame(&Request::SetField {
        key: key.clone(),
        field: Field::Primitive(Primitive::Integer(42)),
    }));
    match srv.exchange(&request_frame(&Request::Keys)) {
        Response::Keys(ks) => {
            assert_eq!(ks.len(), 1);
            assert_eq!(ks[0].as_bytes(), key.as_bytes());
        }
        r => panic!("expected Keys, got {:?}", r),
    }
}

// ── responses to logged operations, and framing ──────────────────────────────────────────────

#[test]
fn logged_response_for_each_outcome() {
    assert!(matches!(logged_response(Ok(())), Response::Success(None)));
    assert!(matches!(logged_response(Err(PeachDbError::KeyNotFound)), Response::NotFound));
    let io = PeachDbError::Io { kind: IoKind::Other, message: "disk full".to_string() };
    match logged_response(Err(io)) {
        Response::ServerError(m) => assert_eq!(m, "I/O error: disk full"),
        r => panic!("expected ServerError, got {:?}", r),
    }
}

#[test]
fn response_frame_bytes() {
    assert_eq!(response_frame(&Response::NotFound), vec![0, 0, 0, 5, 0x01, 0, 0, 0, 0]);
    assert_eq!(response_frame(&Response::Success(None)), vec![0, 0, 0, 5, 0x00, 0, 0, 0, 0]);
    assert_eq!(response_frame(&Response::InvalidRequest), vec![0, 0, 0, 5, 0x04, 0, 0, 0, 0]);
    assert_eq!(
        response_frame(&Response::ServerError("oops".to_string())),
        vec![0, 0, 0, 9, 0x03, 0, 0, 0, 4, b'o', b'o', b'p', b's']
    );
}

#[test]
fn request_or_invalid_decodes_valid_message() {
    let mut enc = ProtocolEncoder::new();
    enc.encode_request(&Request::Del { key: Key::from("x") });
    match request_or_invalid(enc.finish()) {
        Ok(Request::Del { key }) => assert_eq!(key.as_bytes(), b"x"),
        r => panic!("expected Del, got {:?}", r),
    }
    assert!(matches!(request_or_invalid(&[]), Err(Response::InvalidRequest)));
}

// ── the connection's steps ───────────────────────────────────────────────────────────────────

#[test]
fn connection_step_reads_the_announced_length() {
    match connection_step(ConnEvent::LenRead(vec![0, 0, 1, 2])) {
        ConnAction::ReadMsg(n) => assert_eq!(n, 258),
        a => panic!("expected ReadMsg, got {:?}", a),
    }
    assert!(matches!(
        connection_step(ConnEvent::LenRead(vec![0, 1])),
        ConnAction::Close(Err(PeachDbError::BufferTooShort))
    ));
}

#[test]
fn connection_step_closes_on_read_failures() {
    assert!(matches!(
        connection_step(ConnEvent::ReadFailed(IoKind::UnexpectedEof, "eof".to_string())),
        ConnAction::Close(Ok(()))
    ));
    assert!(matches!(
        connection_step(ConnEvent::ReadFailed(IoKind::ConnectionReset, "reset".to_string())),
        ConnAction::Close(Ok(()))
    ));
    match connection_step(ConnEvent::ReadFailed(IoKind::TimedOut, "slow".to_string())) {
        ConnAction::Close(Err(PeachDbError::Io { kind, message })) => {
            assert_eq!(kind, IoKind::TimedOut);
            assert_eq!(message, "slow");
        }
        a => panic!("expected an I/O error, got {:?}", a),
    }
}

#[test]
fn connection_step_answers_a_short_message_and_closes() {
    match connection_step(ConnEvent::MsgShort) {
        ConnAction::Send { frame, close_after } => {
            assert!(close_after);
            assert_eq!(frame, response_frame(&Response::ServerError("failed to read message".to_string())));
        }
        a => panic!("expected Send, got {:?}", a),
    }
}

#[test]
fn connection_step_answers_messages() {
    let mut enc = ProtocolEncoder::new();
    enc.encode_request(&Request::Ping);
    assert!(matches!(
        connection_step(ConnEvent::MsgRead(enc.finish().to_vec())),
        ConnAction::Answer(Request::Ping)
    ));
    match connection_step(ConnEvent::MsgRead(vec![0xFF, 0x01])) {
        ConnAction::Send { frame, close_after } => {
            assert!(!close_after);
            assert_eq!(frame, response_frame(&Response::InvalidRequest));
        }
        a => panic!("expected Send, got {:?}", a),
    }
    match connection_step(ConnEvent::Answered(Response::NotFound)) {
        ConnAction::Send { frame, close_after } => {
            assert!(!close_after);
            assert_eq!(frame, response_frame(&Response::NotFound));
        }
        a => panic!("expected Send, got {:?}", a),
    }
    assert!(matches!(connection_step(ConnEvent::Written(true)), ConnAction::ReadLen));
    assert!(matches!(connection_step(ConnEvent::Written(false)), ConnAction::Close(Ok(()))));
}
