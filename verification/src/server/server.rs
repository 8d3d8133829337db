//! The server's decisions: how a request is answered, and what a connection sends back.

use vstd::prelude::*;
use crate::db::db::{apply_entries, State};
use crate::db::wal::{WalEntry, WalEntryV};
use crate::dtypes::PDBResult;
use crate::endian::{read_u32_be, spec_u32_from_be_bytes, spec_u32_to_be_bytes};
use crate::error::{spec_eof_text, IoKind, PeachDbError};
use vstd::string::StringExecFns;
use crate::server::protocol::{
    keys_view, spec_decode_request, spec_frame, spec_response_bytes, ProtocolDecoder, ProtocolEncoder,
    Request, RequestV, Response, ResponseV,
};

verus! {

/// What answering a request takes: a response right away, or a log entry to write first.
#[derive(Debug)]
pub enum RequestStep {
    /// Send this response.
    Respond(Response),
    /// Log this entry and apply it; the outcome decides the response (see [`logged_response`]).
    Log(WalEntry),
}

/// The answer to a request: ping is answered `Success` with no field; get with the key's
/// field, or `NotFound`; keys with the keys that have a value; set and del by logging the
/// entry.
pub open spec fn spec_handle_request(fields: Map<Seq<u8>, crate::dtypes::FieldV>, key_order: Seq<Seq<u8>>, req: RequestV) -> Result<ResponseV, WalEntryV> {
    match req {
        RequestV::Ping => Ok(ResponseV::Success(None)),
        RequestV::Get(k) => if fields.contains_key(k) {
            Ok(ResponseV::Success(Some(fields[k])))
        } else {
            Ok(ResponseV::NotFound)
        },
        RequestV::Keys => Ok(ResponseV::Keys(key_order)),
        RequestV::SetField(k, f) => Err(WalEntryV::SetField(k, f)),
        RequestV::Del(k) => Err(WalEntryV::Delete(k)),
    }
}

/// Decides how to answer `req` against the database's state (see [`spec_handle_request`]).
pub fn handle_request(state: &State, req: Request) -> (step: RequestStep)
    requires
        state.wf(),
    ensures
        match spec_handle_request(state.fields(), state.key_order(), req@) {
            Ok(res) => step matches RequestStep::Respond(r) && r@ == res,
            Err(e) => step matches RequestStep::Log(entry) && entry@ == e,
        },
{
    match req {
        Request::Ping => RequestStep::Respond(Response::Success(None)),
        Request::Get { key } => match state.get(&key) {
            Ok(field) => RequestStep::Respond(Response::Success(Some(field))),
            Err(PeachDbError::KeyNotFound) => RequestStep::Respond(Response::NotFound),
            Err(e) => RequestStep::Respond(Response::ServerError(e.message())),
        },
        Request::SetField { key, field } => RequestStep::Log(WalEntry::SetField(key, field)),
        Request::Del { key } => RequestStep::Log(WalEntry::Delete(key)),
        Request::Keys => RequestStep::Respond(Response::Keys(state.keys())),
    }
}

/// The answer once a logged operation is done: `Success` with no field if it succeeded,
/// `NotFound` for a missing key, the error's text as a server error otherwise.
pub fn logged_response(result: PDBResult<()>) -> (r: Response)
    ensures
        result is Ok ==> r@ == ResponseV::Success(None),
        result matches Err(e) ==> if e is KeyNotFound {
            r@ == ResponseV::NotFound
        } else {
            r@ == ResponseV::ServerError(e.spec_message())
        },
{
    match result {
        Ok(()) => Response::Success(None),
        Err(PeachDbError::KeyNotFound) => Response::NotFound,
        Err(e) => Response::ServerError(e.message()),
    }
}

/// The request a received message holds, or the `InvalidRequest` response for a message that
/// does not decode.
pub fn request_or_invalid(msg: &[u8]) -> (r: Result<Request, Response>)
    ensures
        match spec_decode_request(msg@) {
            Ok((req, _)) => r matches Ok(x) && x@ == req,
            Err(_) => r matches Err(res) && res@ == ResponseV::InvalidRequest,
        },
{
    match ProtocolDecoder::new(msg).decode_request() {
        Ok(req) => Ok(req),
        Err(_) => Err(Response::InvalidRequest),
    }
}

/// The bytes that send a response: the response, framed.
pub fn response_frame(res: &Response) -> (b: Vec<u8>)
    ensures
        b@ == spec_frame(spec_response_bytes(res@)),
{
    let mut enc = ProtocolEncoder::new();
    enc.encode_response(res);
    assert(enc.bytes() =~= spec_response_bytes(res@));
    enc.frame()
}

/// What happened on a connection: the frame's length bytes were read, a read failed, the
/// message was read, the message ended early, a request was answered, or a frame was written
/// (or its write failed).
#[derive(Debug)]
pub enum ConnEvent {
    LenRead(Vec<u8>),
    ReadFailed(IoKind, String),
    MsgRead(Vec<u8>),
    MsgShort,
    Answered(Response),
    Written(bool),
}

/// What a connection does next: read a message of this length, answer this request, send this
/// frame (and close after it or not), read the next frame's length, or close with this outcome.
#[derive(Debug)]
pub enum ConnAction {
    ReadMsg(usize),
    Answer(Request),
    Send { frame: Vec<u8>, close_after: bool },
    ReadLen,
    Close(PDBResult<()>),
}

/// The mathematical value of a [`ConnEvent`].
pub enum ConnEventV {
    LenRead(Seq<u8>),
    ReadFailed(IoKind, Seq<char>),
    MsgRead(Seq<u8>),
    MsgShort,
    Answered(ResponseV),
    Written(bool),
}

impl View for ConnEvent {
    type V = ConnEventV;

    open spec fn view(&self) -> ConnEventV {
        match self {
            ConnEvent::LenRead(b) => ConnEventV::LenRead(b@),
            ConnEvent::ReadFailed(k, m) => ConnEventV::ReadFailed(*k, m@),
            ConnEvent::MsgRead(m) => ConnEventV::MsgRead(m@),
            ConnEvent::MsgShort => ConnEventV::MsgShort,
            ConnEvent::Answered(r) => ConnEventV::Answered(r@),
            ConnEvent::Written(ok) => ConnEventV::Written(*ok),
        }
    }
}

/// The mathematical value of a [`ConnAction`]; a close keeps only whether it is clean.
pub enum ConnActionV {
    ReadMsg(nat),
    Answer(RequestV),
    Send { frame: Seq<u8>, close_after: bool },
    ReadLen,
    Close { ok: bool },
}

impl View for ConnAction {
    type V = ConnActionV;

    open spec fn view(&self) -> ConnActionV {
        match self {
            ConnAction::ReadMsg(n) => ConnActionV::ReadMsg(*n as nat),
            ConnAction::Answer(r) => ConnActionV::Answer(r@),
            ConnAction::Send { frame, close_after } => ConnActionV::Send { frame: frame@, close_after: *close_after },
            ConnAction::ReadLen => ConnActionV::ReadLen,
            ConnAction::Close(r) => ConnActionV::Close { ok: r is Ok },
        }
    }
}

/// The frame that answers a message that ends early.
pub open spec fn spec_short_message_frame() -> Seq<u8> {
    spec_frame(spec_response_bytes(ResponseV::ServerError("failed to read message"@)))
}

/// The connection's next step after `ev` (see [`connection_step`]).
pub open spec fn spec_connection_step(ev: ConnEventV) -> ConnActionV {
    match ev {
        ConnEventV::LenRead(b) => if b.len() == 4 {
            ConnActionV::ReadMsg(spec_u32_from_be_bytes(b) as nat)
        } else {
            ConnActionV::Close { ok: false }
        },
        ConnEventV::ReadFailed(k, _) => ConnActionV::Close {
            ok: k == IoKind::UnexpectedEof || k == IoKind::ConnectionReset,
        },
        ConnEventV::MsgShort => ConnActionV::Send { frame: spec_short_message_frame(), close_after: true },
        ConnEventV::MsgRead(m) => match spec_decode_request(m) {
            Ok((req, _)) => ConnActionV::Answer(req),
            Err(_) => ConnActionV::Send {
                frame: spec_frame(spec_response_bytes(ResponseV::InvalidRequest)),
                close_after: false,
            },
        },
        ConnEventV::Answered(res) => ConnActionV::Send {
            frame: spec_frame(spec_response_bytes(res)),
            close_after: false,
        },
        ConnEventV::Written(ok) => if ok {
            ConnActionV::ReadLen
        } else {
            ConnActionV::Close { ok: true }
        },
    }
}

/// The connection's next step after `ev`: a length read asks for the message; a read that
/// fails closes the connection, cleanly where the peer has gone (end of input or a reset) and
/// with the I/O error otherwise; a message that ends early is answered with a server error and
/// the connection closes; a message is answered if it decodes, else `InvalidRequest` is sent and
/// the connection goes on; an answer is sent; after a write the next length is read, and a failed
/// write closes the connection.
pub fn connection_step(ev: ConnEvent) -> (a: ConnAction)
    ensures
        a@ == spec_connection_step(ev@),
        match ev {
            ConnEvent::LenRead(b) => if b@.len() == 4 {
                a matches ConnAction::ReadMsg(n) && n == spec_u32_from_be_bytes(b@)
            } else {
                a matches ConnAction::Close(Err(e)) && e is BufferTooShort
            },
            ConnEvent::ReadFailed(k, m) => if k == IoKind::UnexpectedEof || k == IoKind::ConnectionReset {
                a matches ConnAction::Close(Ok(()))
            } else {
                a matches ConnAction::Close(Err(PeachDbError::Io { kind, message })) && kind == k
                    && message@ == m@
            },
            ConnEvent::MsgShort => a matches ConnAction::Send { frame, close_after } && close_after
                && frame@ == spec_frame(spec_response_bytes(ResponseV::ServerError("failed to read message"@))),
            ConnEvent::MsgRead(m) => match spec_decode_request(m@) {
                Ok((req, _)) => a matches ConnAction::Answer(r) && r@ == req,
                Err(_) => a matches ConnAction::Send { frame, close_after } && !close_after && frame@
                    == spec_frame(spec_response_bytes(ResponseV::InvalidRequest)),
            },
            ConnEvent::Answered(res) => a matches ConnAction::Send { frame, close_after } && !close_after
                && frame@ == spec_frame(spec_response_bytes(res@)),
            ConnEvent::Written(ok) => if ok {
                a is ReadLen
            } else {
                a matches ConnAction::Close(Ok(()))
            },
        },
{
    match ev {
        ConnEvent::LenRead(b) => {
            if b.len() == 4 {
                let n = read_u32_be(b.as_slice(), 0);
                assert(b@.subrange(0, 4) =~= b@);
                ConnAction::ReadMsg(n as usize)
            } else {
                ConnAction::Close(Err(PeachDbError::BufferTooShort))
            }
        },
        ConnEvent::ReadFailed(kind, message) => match kind {
            IoKind::UnexpectedEof | IoKind::ConnectionReset => ConnAction::Close(Ok(())),
            _ => ConnAction::Close(Err(PeachDbError::Io { kind, message })),
        },
        ConnEvent::MsgShort => {
            let res = Response::ServerError(String::from_str("failed to read message"));
            ConnAction::Send { frame: response_frame(&res), close_after: true }
        },
        ConnEvent::MsgRead(m) => match request_or_invalid(m.as_slice()) {
            Ok(req) => ConnAction::Answer(req),
            Err(res) => ConnAction::Send { frame: response_frame(&res), close_after: false },
        },
        ConnEvent::Answered(res) => ConnAction::Send { frame: response_frame(&res), close_after: false },
        ConnEvent::Written(ok) => if ok {
            ConnAction::ReadLen
        } else {
            ConnAction::Close(Ok(()))
        },
    }
}

/// A connection run as the server runs it, from `action`: the peer's bytes still to read are
/// `input` (a read of more than remain ends the input: a length read then fails with the end of
/// input, a message read is short), `answers` are the answers the database gives to the requests
/// handed to it, in order, and every write succeeds. The frames sent, the requests handed to the
/// database, and how the connection ended (`None` if `steps` steps did not reach the end).
pub open spec fn spec_connection_run(
    action: ConnActionV,
    input: Seq<u8>,
    answers: Seq<ResponseV>,
    steps: nat,
) -> (Seq<Seq<u8>>, Seq<RequestV>, Option<bool>)
    decreases steps,
{
    if steps == 0 {
        (Seq::empty(), Seq::empty(), None)
    } else {
        match action {
            ConnActionV::Close { ok } => (Seq::empty(), Seq::empty(), Some(ok)),
            ConnActionV::ReadLen => if input.len() >= 4 {
                spec_connection_run(
                    spec_connection_step(ConnEventV::LenRead(input.take(4))),
                    input.skip(4),
                    answers,
                    (steps - 1) as nat,
                )
            } else {
                spec_connection_run(
                    spec_connection_step(ConnEventV::ReadFailed(IoKind::UnexpectedEof, spec_eof_text())),
                    input,
                    answers,
                    (steps - 1) as nat,
                )
            },
            ConnActionV::ReadMsg(n) => if input.len() >= n {
                spec_connection_run(
                    spec_connection_step(ConnEventV::MsgRead(input.take(n as int))),
                    input.skip(n as int),
                    answers,
                    (steps - 1) as nat,
                )
            } else {
                spec_connection_run(
                    spec_connection_step(ConnEventV::MsgShort),
                    Seq::empty(),
                    answers,
                    (steps - 1) as nat,
                )
            },
            ConnActionV::Answer(req) => {
                let (fs, rs, end) = spec_connection_run(
                    spec_connection_step(ConnEventV::Answered(answers[0])),
                    input,
                    answers.drop_first(),
                    (steps - 1) as nat,
                );
                (fs, seq![req] + rs, end)
            },
            ConnActionV::Send { frame, close_after } => if close_after {
                (seq![frame], Seq::empty(), Some(true))
            } else {
                let (fs, rs, end) = spec_connection_run(
                    spec_connection_step(ConnEventV::Written(true)),
                    input,
                    answers,
                    (steps - 1) as nat,
                );
                (seq![frame] + fs, rs, end)
            },
        }
    }
}

/// Messages framed one after another.
pub open spec fn spec_frames(msgs: Seq<Seq<u8>>) -> Seq<u8>
    decreases msgs.len(),
{
    if msgs.len() == 0 {
        Seq::empty()
    } else {
        spec_frame(msgs[0]) + spec_frames(msgs.drop_first())
    }
}

/// The number of messages that decode as requests.
pub open spec fn spec_decoded_count(msgs: Seq<Seq<u8>>) -> nat
    decreases msgs.len(),
{
    if msgs.len() == 0 {
        0
    } else {
        spec_decoded_count(msgs.drop_first()) + if spec_decode_request(msgs[0]) is Ok {
            1nat
        } else {
            0nat
        }
    }
}

/// The frames a connection owes for messages, given the database's answers to those that decode:
/// for each message in order, the framed answer to its request, or `InvalidRequest` framed.
pub open spec fn spec_owed_frames(msgs: Seq<Seq<u8>>, answers: Seq<ResponseV>) -> Seq<Seq<u8>>
    decreases msgs.len(),
{
    if msgs.len() == 0 {
        Seq::empty()
    } else {
        match spec_decode_request(msgs[0]) {
            Ok(_) => seq![spec_frame(spec_response_bytes(answers[0]))] + spec_owed_frames(
                msgs.drop_first(),
                answers.drop_first(),
            ),
            Err(_) => seq![spec_frame(spec_response_bytes(ResponseV::InvalidRequest))] + spec_owed_frames(
                msgs.drop_first(),
                answers,
            ),
        }
    }
}

/// The requests the messages that decode hold, in order.
pub open spec fn spec_decoded_requests(msgs: Seq<Seq<u8>>) -> Seq<RequestV>
    decreases msgs.len(),
{
    if msgs.len() == 0 {
        Seq::empty()
    } else {
        match spec_decode_request(msgs[0]) {
            Ok((req, _)) => seq![req] + spec_decoded_requests(msgs.drop_first()),
            Err(_) => spec_decoded_requests(msgs.drop_first()),
        }
    }
}

/// A connection answers each complete frame, in order, then closes cleanly. When the peer sends
/// the messages `msgs` framed and then closes, the connection hands the database the request of
/// each message that decodes, in order; it sends exactly one frame per message, in order: the
/// database's answer for a message that decodes, `InvalidRequest` for one that does not (and
/// goes on reading); and at the end of input it closes with no error. `steps` is any bound large
/// enough for the run.
pub proof fn law_connection_answers_in_order(msgs: Seq<Seq<u8>>, answers: Seq<ResponseV>, steps: nat)
    requires
        forall|i: int| 0 <= i < msgs.len() ==> (#[trigger] msgs[i]).len() <= u32::MAX,
        answers.len() == spec_decoded_count(msgs),
        steps >= 4 * msgs.len() + 2,
    ensures
        spec_connection_run(ConnActionV::ReadLen, spec_frames(msgs), answers, steps) == (
            spec_owed_frames(msgs, answers),
            spec_decoded_requests(msgs),
            Some(true),
        ),
    decreases msgs.len(),
{
    crate::endian::lemma_endian_roundtrips();
    let input = spec_frames(msgs);
    if msgs.len() == 0 {
        assert(input.len() == 0);
        assert(spec_connection_run(ConnActionV::ReadLen, input, answers, steps) == spec_connection_run(
            ConnActionV::Close { ok: true },
            input,
            answers,
            (steps - 1) as nat,
        ));
        assert(spec_owed_frames(msgs, answers) =~= Seq::<Seq<u8>>::empty());
        assert(spec_decoded_requests(msgs) =~= Seq::<RequestV>::empty());
    } else {
        let m = msgs[0];
        let rest = msgs.drop_first();
        let tail = spec_frames(rest);
        assert forall|i: int| 0 <= i < rest.len() implies (#[trigger] rest[i]).len() <= u32::MAX by {
            assert(rest[i] == msgs[i + 1]);
        }
        assert(m.len() <= u32::MAX);
        let len_bytes = spec_u32_to_be_bytes(m.len() as u32);
        assert(input == len_bytes + m + tail);
        assert(input.take(4) =~= len_bytes);
        assert(input.skip(4) =~= m + tail);
        assert(spec_u32_from_be_bytes(len_bytes) == m.len() as u32);
        let n = m.len();
        assert((m + tail).take(n as int) =~= m);
        assert((m + tail).skip(n as int) =~= tail);
        let s1 = (steps - 1) as nat;
        let s2 = (steps - 2) as nat;
        assert(spec_connection_run(ConnActionV::ReadLen, input, answers, steps) == spec_connection_run(
            ConnActionV::ReadMsg(n),
            m + tail,
            answers,
            s1,
        ));
        assert(spec_connection_run(ConnActionV::ReadMsg(n), m + tail, answers, s1) == spec_connection_run(
            spec_connection_step(ConnEventV::MsgRead(m)),
            tail,
            answers,
            s2,
        ));
        match spec_decode_request(m) {
            Ok((req, _)) => {
                assert(answers.len() == spec_decoded_count(rest) + 1);
                let a0 = answers[0];
                let arest = answers.drop_first();
                let s3 = (steps - 3) as nat;
                let s4 = (steps - 4) as nat;
                law_connection_answers_in_order(rest, arest, s4);
                let fr = spec_frame(spec_response_bytes(a0));
                assert(spec_connection_run(ConnActionV::Send { frame: fr, close_after: false }, tail, arest, s3)
                    == (
                    seq![fr] + spec_owed_frames(rest, arest),
                    spec_decoded_requests(rest),
                    Some(true),
                ));
                assert(spec_owed_frames(msgs, answers) == seq![fr] + spec_owed_frames(rest, arest));
                assert(spec_decoded_requests(msgs) == seq![req] + spec_decoded_requests(rest));
            },
            Err(_) => {
                assert(answers.len() == spec_decoded_count(rest));
                let s3 = (steps - 3) as nat;
                law_connection_answers_in_order(rest, answers, s3);
                let fr = spec_frame(spec_response_bytes(ResponseV::InvalidRequest));
                assert(spec_owed_frames(msgs, answers) == seq![fr] + spec_owed_frames(rest, answers));
                assert(spec_decoded_requests(msgs) == spec_decoded_requests(rest));
            },
        }
    }
}

/// How requests are answered against the values `fields`: ping with `Success` and no field; get
/// with the key's field, or `NotFound` when it has none; keys with the keys in their order. A set
/// and a delete are not answered from the values but logged: once the set's entry is applied, a
/// get of its key answers the field it set; once the delete's entry is applied, a get of its key
/// answers `NotFound`.
pub proof fn law_requests_answered(
    fields: Map<Seq<u8>, crate::dtypes::FieldV>,
    order: Seq<Seq<u8>>,
    order2: Seq<Seq<u8>>,
    k: Seq<u8>,
    f: crate::dtypes::FieldV,
)
    ensures
        spec_handle_request(fields, order, RequestV::Ping) == Ok::<ResponseV, WalEntryV>(ResponseV::Success(None)),
        fields.contains_key(k) ==> spec_handle_request(fields, order, RequestV::Get(k)) == Ok::<
            ResponseV,
            WalEntryV,
        >(ResponseV::Success(Some(fields[k]))),
        !fields.contains_key(k) ==> spec_handle_request(fields, order, RequestV::Get(k)) == Ok::<
            ResponseV,
            WalEntryV,
        >(ResponseV::NotFound),
        spec_handle_request(fields, order, RequestV::Keys) == Ok::<ResponseV, WalEntryV>(ResponseV::Keys(order)),
        spec_handle_request(fields, order, RequestV::SetField(k, f)) matches Err(e) && spec_handle_request(
            apply_entries(fields, seq![e]),
            order2,
            RequestV::Get(k),
        ) == Ok::<ResponseV, WalEntryV>(ResponseV::Success(Some(f))),
        spec_handle_request(fields, order, RequestV::Del(k)) matches Err(e) && spec_handle_request(
            apply_entries(fields, seq![e]),
            order2,
            RequestV::Get(k),
        ) == Ok::<ResponseV, WalEntryV>(ResponseV::NotFound),
{
    let es = seq![WalEntryV::SetField(k, f)];
    let ed = seq![WalEntryV::Delete(k)];
    assert(es.drop_last() =~= Seq::<WalEntryV>::empty());
    assert(ed.drop_last() =~= Seq::<WalEntryV>::empty());
    assert(es.last() == WalEntryV::SetField(k, f));
    assert(ed.last() == WalEntryV::Delete(k));
    assert(apply_entries(fields, es.drop_last()) == fields);
    assert(apply_entries(fields, ed.drop_last()) == fields);
    assert(apply_entries(fields, es) == fields.insert(k, f));
    assert(apply_entries(fields, ed) == fields.remove(k));
}

} // verus!
