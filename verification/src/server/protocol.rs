//! The TCP wire format: requests, responses and their length-prefixed frames. Integers are
//! big-endian.

use vstd::prelude::*;
use vstd::string::StringExecFns;
use vstd::std_specs::convert::TryFromSpecImpl;
use vstd::utf8::{decode_utf8, encode_utf8, valid_utf8};
use crate::dtypes::{field_encodable, lemma_field_roundtrip, 
    bytes_from_field, copy_bytes, extend_bytes, field_from_bytes, spec_field_bytes, spec_field_from_bytes,
    Field, FieldV, Key, PDBResult,
};
use crate::endian::{
    read_u16_be, read_u32_be, spec_u16_from_be_bytes, spec_u16_to_be_bytes, spec_u32_from_be_bytes,
    spec_u32_to_be_bytes, u16_be, u32_be,
};
use crate::error::{eof_error, spec_eof_error, DecodeFailure, PeachDbError};

verus! {

/// A request's command.
enum Command {
    Ping,
    Get,
    SetField,
    Del,
    Keys,
}

/// The command a byte names: `0x01` to `0x05` for ping, get, set, del and keys.
spec fn spec_command_from_byte(b: u8) -> Option<Command> {
    if b == 0x01 {
        Some(Command::Ping)
    } else if b == 0x02 {
        Some(Command::Get)
    } else if b == 0x03 {
        Some(Command::SetField)
    } else if b == 0x04 {
        Some(Command::Del)
    } else if b == 0x05 {
        Some(Command::Keys)
    } else {
        None
    }
}

impl TryFrom<u8> for Command {
    type Error = PeachDbError;

    fn try_from(b: u8) -> (r: PDBResult<Self>) {
        match b {
            0x01 => Ok(Command::Ping),
            0x02 => Ok(Command::Get),
            0x03 => Ok(Command::SetField),
            0x04 => Ok(Command::Del),
            0x05 => Ok(Command::Keys),
            _ => Err(PeachDbError::UnknownCommand { byte: b }),
        }
    }
}

impl TryFromSpecImpl<u8> for Command {
    open spec fn obeys_try_from_spec() -> bool {
        true
    }

    closed spec fn try_from_spec(b: u8) -> Result<Command, PeachDbError> {
        match spec_command_from_byte(b) {
            Some(c) => Ok(c),
            None => Err(PeachDbError::UnknownCommand { byte: b }),
        }
    }
}

/// The byte of a command.
spec fn spec_command_byte(c: Command) -> u8 {
    match c {
        Command::Ping => 0x01,
        Command::Get => 0x02,
        Command::SetField => 0x03,
        Command::Del => 0x04,
        Command::Keys => 0x05,
    }
}

/// The byte of a command.
fn command_byte(cmd: Command) -> (b: u8)
    ensures
        b == spec_command_byte(cmd),
{
    match cmd {
        Command::Ping => 0x01,
        Command::Get => 0x02,
        Command::SetField => 0x03,
        Command::Del => 0x04,
        Command::Keys => 0x05,
    }
}

/// A client's request.
#[derive(Debug)]
pub enum Request {
    Ping,
    Get { key: Key },
    SetField { key: Key, field: Field },
    Del { key: Key },
    Keys,
}

/// The mathematical value of a [`Request`].
pub enum RequestV {
    Ping,
    Get(Seq<u8>),
    SetField(Seq<u8>, FieldV),
    Del(Seq<u8>),
    Keys,
}

impl View for Request {
    type V = RequestV;

    open spec fn view(&self) -> RequestV {
        match self {
            Request::Ping => RequestV::Ping,
            Request::Get { key } => RequestV::Get(key@),
            Request::SetField { key, field } => RequestV::SetField(key@, field@),
            Request::Del { key } => RequestV::Del(key@),
            Request::Keys => RequestV::Keys,
        }
    }
}

/// The status that starts a response.
pub enum Status {
    Success,
    NotFound,
    TypeError,
    ServerError,
    InvalidRequest,
    Keys,
}

/// The status a byte names: `0x00` to `0x05` for success, not found, type error, server error,
/// invalid request and keys.
pub open spec fn spec_status_from_byte(b: u8) -> Option<Status> {
    if b == 0x00 {
        Some(Status::Success)
    } else if b == 0x01 {
        Some(Status::NotFound)
    } else if b == 0x02 {
        Some(Status::TypeError)
    } else if b == 0x03 {
        Some(Status::ServerError)
    } else if b == 0x04 {
        Some(Status::InvalidRequest)
    } else if b == 0x05 {
        Some(Status::Keys)
    } else {
        None
    }
}

impl TryFrom<u8> for Status {
    type Error = PeachDbError;

    fn try_from(b: u8) -> (r: PDBResult<Self>) {
        match b {
            0x00 => Ok(Status::Success),
            0x01 => Ok(Status::NotFound),
            0x02 => Ok(Status::TypeError),
            0x03 => Ok(Status::ServerError),
            0x04 => Ok(Status::InvalidRequest),
            0x05 => Ok(Status::Keys),
            _ => Err(PeachDbError::UnknownCommand { byte: b }),
        }
    }
}

impl TryFromSpecImpl<u8> for Status {
    open spec fn obeys_try_from_spec() -> bool {
        true
    }

    open spec fn try_from_spec(b: u8) -> Result<Status, PeachDbError> {
        match spec_status_from_byte(b) {
            Some(s) => Ok(s),
            None => Err(PeachDbError::UnknownCommand { byte: b }),
        }
    }
}

/// The byte of a status.
pub open spec fn spec_status_byte(s: Status) -> u8 {
    match s {
        Status::Success => 0x00,
        Status::NotFound => 0x01,
        Status::TypeError => 0x02,
        Status::ServerError => 0x03,
        Status::InvalidRequest => 0x04,
        Status::Keys => 0x05,
    }
}

/// The byte of a status.
pub fn status_byte(s: Status) -> (b: u8)
    ensures
        b == spec_status_byte(s),
{
    match s {
        Status::Success => 0x00,
        Status::NotFound => 0x01,
        Status::TypeError => 0x02,
        Status::ServerError => 0x03,
        Status::InvalidRequest => 0x04,
        Status::Keys => 0x05,
    }
}

/// The server's response.
#[derive(Debug)]
pub enum Response {
    Success(Option<Field>),
    NotFound,
    TypeError,
    ServerError(String),
    InvalidRequest,
    Keys(Vec<Key>),
}

/// The mathematical value of a [`Response`].
pub enum ResponseV {
    Success(Option<FieldV>),
    NotFound,
    TypeError,
    ServerError(Seq<char>),
    InvalidRequest,
    Keys(Seq<Seq<u8>>),
}

/// The bytes of a sequence of keys.
pub open spec fn keys_view(ks: Seq<Key>) -> Seq<Seq<u8>> {
    ks.map_values(|k: Key| k@)
}

impl View for Response {
    type V = ResponseV;

    open spec fn view(&self) -> ResponseV {
        match self {
            Response::Success(None) => ResponseV::Success(None),
            Response::Success(Some(f)) => ResponseV::Success(Some(f@)),
            Response::NotFound => ResponseV::NotFound,
            Response::TypeError => ResponseV::TypeError,
            Response::ServerError(m) => ResponseV::ServerError(m@),
            Response::InvalidRequest => ResponseV::InvalidRequest,
            Response::Keys(ks) => ResponseV::Keys(keys_view(ks@)),
        }
    }
}

/// A key on the wire: its length (big-endian `u16`) and its bytes.
pub open spec fn spec_wire_key(k: Seq<u8>) -> Seq<u8> {
    spec_u16_to_be_bytes(k.len() as u16) + k
}

/// A field on the wire: the length of its bytes (big-endian `u32`) and its bytes.
pub open spec fn spec_wire_field(f: FieldV) -> Seq<u8> {
    spec_u32_to_be_bytes(spec_field_bytes(f).len() as u32) + spec_field_bytes(f)
}

/// A request on the wire: the version `0x01`, the command byte, then the key for get, del and
/// set, and the field after the key for set.
pub open spec fn spec_request_bytes(r: RequestV) -> Seq<u8> {
    seq![0x01u8] + match r {
        RequestV::Ping => seq![0x01u8],
        RequestV::Keys => seq![0x05u8],
        RequestV::Get(k) => seq![0x02u8] + spec_wire_key(k),
        RequestV::Del(k) => seq![0x04u8] + spec_wire_key(k),
        RequestV::SetField(k, f) => seq![0x03u8] + spec_wire_key(k) + spec_wire_field(f),
    }
}

/// The payload of a keys response: each key on the wire, one after another.
pub open spec fn spec_keys_payload(ks: Seq<Seq<u8>>) -> Seq<u8>
    decreases ks.len(),
{
    if ks.len() == 0 {
        Seq::empty()
    } else {
        spec_keys_payload(ks.drop_last()) + spec_wire_key(ks.last())
    }
}

/// A response's status byte and payload.
pub open spec fn spec_response_parts(r: ResponseV) -> (u8, Seq<u8>) {
    match r {
        ResponseV::Success(None) => (0x00u8, Seq::empty()),
        ResponseV::Success(Some(f)) => (0x00u8, spec_field_bytes(f)),
        ResponseV::NotFound => (0x01u8, Seq::empty()),
        ResponseV::TypeError => (0x02u8, Seq::empty()),
        ResponseV::InvalidRequest => (0x04u8, Seq::empty()),
        ResponseV::ServerError(m) => (0x03u8, encode_utf8(m)),
        ResponseV::Keys(ks) => (0x05u8, spec_keys_payload(ks)),
    }
}

/// A response on the wire: its status byte, its payload's length (big-endian `u32`) and its
/// payload.
pub open spec fn spec_response_bytes(r: ResponseV) -> Seq<u8> {
    let (status, payload) = spec_response_parts(r);
    seq![status] + spec_u32_to_be_bytes(payload.len() as u32) + payload
}

/// A frame: the message's length (big-endian `u32`) and the message.
pub open spec fn spec_frame(msg: Seq<u8>) -> Seq<u8> {
    spec_u32_to_be_bytes(msg.len() as u32) + msg
}

/// Builds request and response messages.
pub struct ProtocolEncoder {
    buffer: Vec<u8>,
}

impl ProtocolEncoder {
    /// The bytes encoded so far.
    pub closed spec fn bytes(&self) -> Seq<u8> {
        self.buffer@
    }

    /// An encoder with no bytes.
    pub fn new() -> (e: ProtocolEncoder)
        ensures
            e.bytes() == Seq::<u8>::empty(),
    {
        ProtocolEncoder { buffer: Vec::new() }
    }

    fn write(&mut self, bytes: &[u8])
        ensures
            final(self).bytes() == old(self).bytes() + bytes@,
    {
        extend_bytes(&mut self.buffer, bytes);
    }

    fn encode_u8(&mut self, val: u8)
        ensures
            final(self).bytes() == old(self).bytes().push(val),
    {
        self.buffer.push(val);
    }

    fn encode_u16_be(&mut self, val: u16)
        ensures
            final(self).bytes() == old(self).bytes() + spec_u16_to_be_bytes(val),
    {
        let b = u16_be(val);
        self.write(b.as_slice());
    }

    fn encode_u32_be(&mut self, val: u32)
        ensures
            final(self).bytes() == old(self).bytes() + spec_u32_to_be_bytes(val),
    {
        let b = u32_be(val);
        self.write(b.as_slice());
    }

    fn encode_key(&mut self, key: &Key)
        ensures
            final(self).bytes() == old(self).bytes() + spec_wire_key(key@),
    {
        let ghost old_bytes = self.bytes();
        self.encode_u16_be(#[verifier::truncate] (key.len() as u16));
        self.write(key.as_bytes());
        assert(self.bytes() =~= old_bytes + spec_wire_key(key@));
    }

    fn encode_field(&mut self, field: &Field)
        ensures
            final(self).bytes() == old(self).bytes() + spec_wire_field(field@),
    {
        let ghost old_bytes = self.bytes();
        let bytes = bytes_from_field(field);
        self.encode_u32_be(#[verifier::truncate] (bytes.len() as u32));
        self.write(bytes.as_slice());
        assert(self.bytes() =~= old_bytes + spec_wire_field(field@));
    }

    /// Appends a request (see [`spec_request_bytes`]).
    pub fn encode_request(&mut self, req: &Request)
        ensures
            final(self).bytes() == old(self).bytes() + spec_request_bytes(req@),
    {
        let ghost old_bytes = self.bytes();
        self.encode_u8(0x01);
        match req {
            Request::Ping => {
                self.encode_u8(command_byte(Command::Ping));
            },
            Request::Keys => {
                self.encode_u8(command_byte(Command::Keys));
            },
            Request::Get { key } => {
                self.encode_u8(command_byte(Command::Get));
                self.encode_key(key);
            },
            Request::Del { key } => {
                self.encode_u8(command_byte(Command::Del));
                self.encode_key(key);
            },
            Request::SetField { key, field } => {
                self.encode_u8(command_byte(Command::SetField));
                self.encode_key(key);
                self.encode_field(field);
            },
        }
        assert(self.bytes() =~= old_bytes + spec_request_bytes(req@));
    }

    /// Appends a response (see [`spec_response_bytes`]).
    pub fn encode_response(&mut self, res: &Response)
        ensures
            final(self).bytes() == old(self).bytes() + spec_response_bytes(res@),
    {
        let ghost old_bytes = self.bytes();
        proof {
            crate::endian::lemma_endian_roundtrips();
        }
        match res {
            Response::Success(maybe_field) => {
                self.encode_u8(status_byte(Status::Success));
                match maybe_field {
                    None => {
                        self.encode_u32_be(0);
                    },
                    Some(field) => {
                        let bytes = bytes_from_field(field);
                        self.encode_u32_be(#[verifier::truncate] (bytes.len() as u32));
                        self.write(bytes.as_slice());
                    },
                }
            },
            Response::NotFound => {
                self.encode_u8(status_byte(Status::NotFound));
                self.encode_u32_be(0);
            },
            Response::TypeError => {
                self.encode_u8(status_byte(Status::TypeError));
                self.encode_u32_be(0);
            },
            Response::InvalidRequest => {
                self.encode_u8(status_byte(Status::InvalidRequest));
                self.encode_u32_be(0);
            },
            Response::ServerError(msg) => {
                let msg_bytes = msg.as_str().as_bytes();
                self.encode_u8(status_byte(Status::ServerError));
                self.encode_u32_be(#[verifier::truncate] (msg_bytes.len() as u32));
                self.write(msg_bytes);
            },
            Response::Keys(keys) => {
                let mut payload: Vec<u8> = Vec::new();
                let mut i: usize = 0;
                while i < keys.len()
                    invariant
                        i <= keys@.len(),
                        payload@ == spec_keys_payload(keys_view(keys@).subrange(0, i as int)),
                    decreases keys@.len() - i,
                {
                    let key = &keys[i];
                    let l = u16_be(#[verifier::truncate] (key.len() as u16));
                    extend_bytes(&mut payload, l.as_slice());
                    extend_bytes(&mut payload, key.as_bytes());
                    proof {
                        let sub = keys_view(keys@).subrange(0, i + 1);
                        assert(sub.drop_last() =~= keys_view(keys@).subrange(0, i as int));
                        assert(sub.last() == key@);
                        assert(payload@ =~= spec_keys_payload(sub));
                    }
                    i = i + 1;
                }
                assert(keys_view(keys@).subrange(0, keys@.len() as int) =~= keys_view(keys@));
                self.encode_u8(status_byte(Status::Keys));
                self.encode_u32_be(#[verifier::truncate] (payload.len() as u32));
                self.write(payload.as_slice());
            },
        }
        assert(self.bytes() =~= old_bytes + spec_response_bytes(res@));
    }

    /// The bytes encoded so far.
    pub fn finish(&self) -> (b: &[u8])
        ensures
            b@ == self.bytes(),
    {
        self.buffer.as_slice()
    }

    /// The bytes encoded so far, framed (see [`spec_frame`]).
    pub fn frame(&self) -> (f: Vec<u8>)
        ensures
            f@ == spec_frame(self.bytes()),
    {
        let msg_len = u32_be(#[verifier::truncate] (self.buffer.len() as u32));
        let mut framed: Vec<u8> = Vec::new();
        extend_bytes(&mut framed, msg_len.as_slice());
        extend_bytes(&mut framed, self.buffer.as_slice());
        assert(framed@ =~= spec_frame(self.bytes()));
        framed
    }

    /// Empties the encoder.
    pub fn reset(&mut self)
        ensures
            final(self).bytes() == Seq::<u8>::empty(),
    {
        self.buffer.clear();
    }
}

/// Decoding a key on the wire at `p`: its bytes and the position after it. Where the input
/// ends first, `Eof`.
pub open spec fn spec_decode_wire_key(buf: Seq<u8>, p: int) -> Result<(Seq<u8>, int), DecodeFailure> {
    if buf.len() < p + 2 {
        Err(DecodeFailure::Eof)
    } else {
        let kl = spec_u16_from_be_bytes(buf.subrange(p, p + 2)) as int;
        if buf.len() < p + 2 + kl {
            Err(DecodeFailure::Eof)
        } else {
            Ok((buf.subrange(p + 2, p + 2 + kl), p + 2 + kl))
        }
    }
}

/// Decoding a field on the wire at `p`: the field its bytes decode to and the position after
/// them. Where the input ends first, `Eof`; the field's own failures as
/// [`spec_field_from_bytes`] says.
pub open spec fn spec_decode_wire_field(buf: Seq<u8>, p: int) -> Result<(FieldV, int), DecodeFailure> {
    if buf.len() < p + 4 {
        Err(DecodeFailure::Eof)
    } else {
        let fl = spec_u32_from_be_bytes(buf.subrange(p, p + 4)) as int;
        if buf.len() < p + 4 + fl {
            Err(DecodeFailure::Eof)
        } else {
            match spec_field_from_bytes(buf.subrange(p + 4, p + 4 + fl)) {
                Ok((f, _)) => Ok((f, p + 4 + fl)),
                Err(e) => Err(e),
            }
        }
    }
}

/// Decoding a request from the start of `buf`: the request and the bytes it took. A version
/// other than `0x01` is `InvalidVersion`, a command byte other than `0x01` to `0x05`
/// `UnknownCommand` with that byte; where the input ends first, `Eof`.
pub open spec fn spec_decode_request(buf: Seq<u8>) -> Result<(RequestV, nat), DecodeFailure> {
    if buf.len() < 1 {
        Err(DecodeFailure::Eof)
    } else if buf[0] != 0x01u8 {
        Err(DecodeFailure::InvalidVersion)
    } else if buf.len() < 2 {
        Err(DecodeFailure::Eof)
    } else {
        let c = buf[1];
        if c == 0x01u8 {
            Ok((RequestV::Ping, 2))
        } else if c == 0x05u8 {
            Ok((RequestV::Keys, 2))
        } else if c == 0x02u8 || c == 0x04u8 || c == 0x03u8 {
            match spec_decode_wire_key(buf, 2) {
                Err(e) => Err(e),
                Ok((k, p)) => if c == 0x02u8 {
                    Ok((RequestV::Get(k), p as nat))
                } else if c == 0x04u8 {
                    Ok((RequestV::Del(k), p as nat))
                } else {
                    match spec_decode_wire_field(buf, p) {
                        Err(e) => Err(e),
                        Ok((f, q)) => Ok((RequestV::SetField(k, f), q as nat)),
                    }
                },
            }
        } else {
            Err(DecodeFailure::UnknownCommand(c))
        }
    }
}

/// Decoding the keys of a keys response's payload from `pos` to its end.
pub open spec fn spec_decode_keys(buf: Seq<u8>, pos: int) -> Result<Seq<Seq<u8>>, DecodeFailure>
    decreases buf.len() - pos,
{
    if pos < 0 || pos >= buf.len() {
        Ok(Seq::empty())
    } else {
        match spec_decode_wire_key(buf, pos) {
            Err(e) => Err(e),
            Ok((k, p)) => if p <= pos {
                Ok(Seq::empty())
            } else {
                match spec_decode_keys(buf, p) {
                    Ok(rest) => Ok(seq![k] + rest),
                    Err(e) => Err(e),
                }
            },
        }
    }
}

/// Decoding a response from the start of `buf`: the response and the bytes it took. A status
/// byte other than `0x00` to `0x05` is `UnknownCommand` with that byte, an error message that
/// is not UTF-8 `InvalidUtf8Message`; where the input ends first, `Eof`. An empty success
/// payload carries no field.
pub open spec fn spec_decode_response(buf: Seq<u8>) -> Result<(ResponseV, nat), DecodeFailure> {
    if buf.len() < 1 {
        Err(DecodeFailure::Eof)
    } else {
        match spec_status_from_byte(buf[0]) {
            None => Err(DecodeFailure::UnknownCommand(buf[0])),
            Some(st) => if buf.len() < 5 {
                Err(DecodeFailure::Eof)
            } else {
                let pl = spec_u32_from_be_bytes(buf.subrange(1, 5)) as int;
                if buf.len() < 5 + pl {
                    Err(DecodeFailure::Eof)
                } else {
                    let payload = buf.subrange(5, 5 + pl);
                    let used = (5 + pl) as nat;
                    match st {
                        Status::Success => if pl == 0 {
                            Ok((ResponseV::Success(None), used))
                        } else {
                            match spec_field_from_bytes(payload) {
                                Ok((f, _)) => Ok((ResponseV::Success(Some(f)), used)),
                                Err(e) => Err(e),
                            }
                        },
                        Status::NotFound => Ok((ResponseV::NotFound, used)),
                        Status::TypeError => Ok((ResponseV::TypeError, used)),
                        Status::InvalidRequest => Ok((ResponseV::InvalidRequest, used)),
                        Status::ServerError => if valid_utf8(payload) {
                            Ok((ResponseV::ServerError(decode_utf8(payload)), used))
                        } else {
                            Err(DecodeFailure::InvalidUtf8Message)
                        },
                        Status::Keys => match spec_decode_keys(payload, 0) {
                            Ok(ks) => Ok((ResponseV::Keys(ks), used)),
                            Err(e) => Err(e),
                        },
                    }
                }
            },
        }
    }
}

/// The error message of a server-error response: its bytes as text, or
/// `InvalidRequestFormat` whose reason starts `invalid utf8 in error message: ` if they are not
/// UTF-8.
fn utf8_message(bytes: Vec<u8>) -> (r: PDBResult<String>)
    ensures
        valid_utf8(bytes@) ==> (r matches Ok(s) && s@ == decode_utf8(bytes@)),
        !valid_utf8(bytes@) ==> (r matches Err(e) && e.reports(DecodeFailure::InvalidUtf8Message)),
{
    match crate::dtypes::string_from_utf8(bytes) {
        Ok(s) => Ok(s),
        Err(e) => {
            let mut reason = String::from_str("invalid utf8 in error message: ");
            let text = e.to_string();
            reason.append(text.as_str());
            Err(PeachDbError::InvalidRequestFormat { reason })
        },
    }
}

/// The byte at `p`; the end-of-input error if there is none.
fn read_u8(buf: &[u8], p: usize) -> (r: PDBResult<u8>)
    ensures
        p + 1 <= buf@.len() ==> (r matches Ok(b) && b == buf@[p as int]),
        p + 1 > buf@.len() ==> (r matches Err(e) && spec_eof_error(e)),
{
    if p >= buf.len() {
        return Err(eof_error());
    }
    Ok(buf[p])
}

/// The big-endian `u16` at `p`; the end-of-input error if the input ends first.
fn read_u16_be_at(buf: &[u8], p: usize) -> (r: PDBResult<u16>)
    ensures
        p + 2 <= buf@.len() ==> (r matches Ok(x) && x == spec_u16_from_be_bytes(buf@.subrange(p as int, p + 2))),
        p + 2 > buf@.len() ==> (r matches Err(e) && spec_eof_error(e)),
{
    if p >= buf.len() || buf.len() - p < 2 {
        return Err(eof_error());
    }
    Ok(read_u16_be(buf, p))
}

/// The big-endian `u32` at `p`; the end-of-input error if the input ends first.
fn read_u32_be_at(buf: &[u8], p: usize) -> (r: PDBResult<u32>)
    ensures
        p + 4 <= buf@.len() ==> (r matches Ok(x) && x == spec_u32_from_be_bytes(buf@.subrange(p as int, p + 4))),
        p + 4 > buf@.len() ==> (r matches Err(e) && spec_eof_error(e)),
{
    if p >= buf.len() || buf.len() - p < 4 {
        return Err(eof_error());
    }
    Ok(read_u32_be(buf, p))
}

/// The key on the wire at `p` and the position after it (see [`spec_decode_wire_key`]).
fn read_key(buf: &[u8], p: usize) -> (r: PDBResult<(Key, usize)>)
    ensures
        match spec_decode_wire_key(buf@, p as int) {
            Ok((k, q)) => r matches Ok((key, q2)) && key@ == k && q2 == q,
            Err(d) => r matches Err(e) && e.reports(d),
        },
{
    let _n = buf.len();
    let len = read_u16_be_at(buf, p)? as usize;
    let start = p + 2;
    if buf.len() - start < len {
        return Err(eof_error());
    }
    let key = Key::from(copy_bytes(&buf[start..start + len]));
    Ok((key, start + len))
}

/// The field on the wire at `p` and the position after it (see [`spec_decode_wire_field`]).
fn read_field(buf: &[u8], p: usize) -> (r: PDBResult<(Field, usize)>)
    ensures
        match spec_decode_wire_field(buf@, p as int) {
            Ok((f, q)) => r matches Ok((field, q2)) && field@ == f && q2 == q,
            Err(d) => r matches Err(e) && e.reports(d),
        },
{
    let _n = buf.len();
    let len = read_u32_be_at(buf, p)? as usize;
    let start = p + 4;
    if buf.len() - start < len {
        return Err(eof_error());
    }
    let (field, _) = field_from_bytes(&buf[start..start + len])?;
    Ok((field, start + len))
}

/// The keys of a keys response's payload (see [`spec_decode_keys`]).
fn read_keys(payload: &[u8]) -> (r: PDBResult<Vec<Key>>)
    ensures
        match spec_decode_keys(payload@, 0) {
            Ok(ks) => r matches Ok(keys) && keys_view(keys@) == ks,
            Err(d) => r matches Err(e) && e.reports(d),
        },
{
    let ghost buf = payload@;
    let mut keys: Vec<Key> = Vec::new();
    let mut pos: usize = 0;
    let ghost done: Seq<Seq<u8>> = Seq::empty();
    assert(keys_view(keys@) =~= done);
    while pos < payload.len()
        invariant
            pos <= buf.len(),
            buf == payload@,
            keys_view(keys@) == done,
            match spec_decode_keys(buf, 0) {
                Ok(all) => spec_decode_keys(buf, pos as int) matches Ok(rest) && all == done + rest,
                Err(e) => spec_decode_keys(buf, pos as int) == Err::<Seq<Seq<u8>>, DecodeFailure>(e),
            },
        decreases buf.len() - pos,
    {
        let (key, next) = read_key(payload, pos)?;
        proof {
            let k = key@;
            if let Ok(rest) = spec_decode_keys(buf, next as int) {
                assert(done.push(k) + rest =~= done + (seq![k] + rest));
            }
        }
        let ghost kv = key@;
        keys.push(key);
        proof {
            assert(keys_view(keys@) =~= done.push(kv));
            done = done.push(kv);
        }
        pos = next;
    }
    proof {
        if let Ok(all) = spec_decode_keys(buf, 0) {
            assert(done =~= all);
        }
    }
    Ok(keys)
}

/// Reads requests and responses from a message.
pub struct ProtocolDecoder<'a> {
    bytes: &'a [u8],
    pos: usize,
}

impl<'a> ProtocolDecoder<'a> {
    /// The bytes not yet read.
    pub closed spec fn remaining(&self) -> Seq<u8> {
        self.bytes@.subrange(self.pos as int, self.bytes@.len() as int)
    }

    /// Whether the position lies within the message.
    pub closed spec fn wf(&self) -> bool {
        self.pos <= self.bytes@.len()
    }

    /// A decoder at the start of `bytes`.
    pub fn new(bytes: &'a [u8]) -> (d: ProtocolDecoder<'a>)
        ensures
            d.wf(),
            d.remaining() == bytes@,
    {
        let d = ProtocolDecoder { bytes, pos: 0 };
        assert(d.remaining() =~= bytes@);
        d
    }

    /// Decodes a request from the bytes not yet read (see [`spec_decode_request`]); on success
    /// those bytes are read.
    pub fn decode_request(&mut self) -> (r: PDBResult<Request>)
        requires
            old(self).wf(),
        ensures
            final(self).wf(),
            match spec_decode_request(old(self).remaining()) {
                Ok((req, n)) => r matches Ok(x) && x@ == req && final(self).remaining() == old(self).remaining().subrange(
                    n as int,
                    old(self).remaining().len() as int,
                ),
                Err(d) => r matches Err(e) && e.reports(d),
            },
    {
        let buf = &self.bytes[self.pos..self.bytes.len()];
        let version = read_u8(buf, 0)?;
        if version != 0x01 {
            return Err(PeachDbError::InvalidRequestFormat { reason: String::from_str("invalid version") });
        }
        let cmd = Command::try_from(read_u8(buf, 1)?)?;
        let (req, used) = match cmd {
            Command::Ping => (Request::Ping, 2),
            Command::Keys => (Request::Keys, 2),
            Command::Get => {
                let (key, p) = read_key(buf, 2)?;
                (Request::Get { key }, p)
            },
            Command::Del => {
                let (key, p) = read_key(buf, 2)?;
                (Request::Del { key }, p)
            },
            Command::SetField => {
                let (key, p) = read_key(buf, 2)?;
                let (field, q) = read_field(buf, p)?;
                (Request::SetField { key, field }, q)
            },
        };
        self.pos = self.pos + used;
        assert(self.remaining() =~= old(self).remaining().subrange(used as int, old(self).remaining().len() as int));
        Ok(req)
    }

    /// Decodes a response from the bytes not yet read (see [`spec_decode_response`]); on
    /// success those bytes are read.
    pub fn decode_response(&mut self) -> (r: PDBResult<Response>)
        requires
            old(self).wf(),
        ensures
            final(self).wf(),
            match spec_decode_response(old(self).remaining()) {
                Ok((res, n)) => r matches Ok(x) && x@ == res && final(self).remaining() == old(self).remaining().subrange(
                    n as int,
                    old(self).remaining().len() as int,
                ),
                Err(d) => r matches Err(e) && e.reports(d),
            },
    {
        let buf = &self.bytes[self.pos..self.bytes.len()];
        let status = Status::try_from(read_u8(buf, 0)?)?;
        let payload_len = read_u32_be_at(buf, 1)? as usize;
        if buf.len() - 5 < payload_len {
            return Err(eof_error());
        }
        let payload = copy_bytes(&buf[5..5 + payload_len]);
        let used = 5 + payload_len;
        let res = match status {
            Status::Success => {
                if payload.len() == 0 {
                    Response::Success(None)
                } else {
                    let (field, _) = field_from_bytes(payload.as_slice())?;
                    Response::Success(Some(field))
                }
            },
            Status::NotFound => Response::NotFound,
            Status::TypeError => Response::TypeError,
            Status::InvalidRequest => Response::InvalidRequest,
            Status::ServerError => {
                let msg = utf8_message(payload)?;
                Response::ServerError(msg)
            },
            Status::Keys => {
                let keys = read_keys(payload.as_slice())?;
                Response::Keys(keys)
            },
        };
        self.pos = self.pos + used;
        assert(self.remaining() =~= old(self).remaining().subrange(used as int, old(self).remaining().len() as int));
        Ok(res)
    }
}

/// Whether a request can be sent so that it reads back: its key's length fits a `u16`, and a
/// set's field is encodable with a byte count that fits a `u32`.
pub open spec fn request_encodable(r: RequestV) -> bool {
    match r {
        RequestV::Get(k) => k.len() <= u16::MAX,
        RequestV::Del(k) => k.len() <= u16::MAX,
        RequestV::SetField(k, f) => k.len() <= u16::MAX && field_encodable(f) && spec_field_bytes(f).len()
            <= u32::MAX,
        _ => true,
    }
}

/// A key on the wire reads back as itself.
pub proof fn lemma_wire_key_roundtrip(prefix: Seq<u8>, k: Seq<u8>, rest: Seq<u8>)
    requires
        k.len() <= u16::MAX,
    ensures
        spec_decode_wire_key(prefix + spec_wire_key(k) + rest, prefix.len() as int) == Ok::<(Seq<u8>, int), DecodeFailure>(
            (k, prefix.len() + 2 + k.len() as int),
        ),
        spec_wire_key(k).len() == 2 + k.len(),
{
    crate::endian::lemma_endian_roundtrips();
    let buf = prefix + spec_wire_key(k) + rest;
    let p = prefix.len() as int;
    assert(buf.subrange(p, p + 2) =~= spec_u16_to_be_bytes(k.len() as u16));
    assert(buf.subrange(p + 2, p + 2 + k.len()) =~= k);
}

/// A field on the wire reads back as itself.
pub proof fn lemma_wire_field_roundtrip(prefix: Seq<u8>, f: FieldV, rest: Seq<u8>)
    requires
        field_encodable(f),
        spec_field_bytes(f).len() <= u32::MAX,
    ensures
        spec_decode_wire_field(prefix + spec_wire_field(f) + rest, prefix.len() as int) == Ok::<(FieldV, int), DecodeFailure>(
            (f, prefix.len() + 4 + spec_field_bytes(f).len() as int),
        ),
        spec_wire_field(f).len() == 4 + spec_field_bytes(f).len(),
{
    crate::endian::lemma_endian_roundtrips();
    lemma_field_roundtrip(f);
    let b = spec_field_bytes(f);
    let buf = prefix + spec_wire_field(f) + rest;
    let p = prefix.len() as int;
    assert(buf.subrange(p, p + 4) =~= spec_u32_to_be_bytes(b.len() as u32));
    assert(buf.subrange(p + 4, p + 4 + b.len()) =~= b);
}

/// A request reads back as itself, whatever follows it, and takes exactly its bytes.
pub proof fn law_request_roundtrip(r: RequestV, rest: Seq<u8>)
    requires
        request_encodable(r),
    ensures
        spec_decode_request(spec_request_bytes(r) + rest) == Ok::<(RequestV, nat), DecodeFailure>(
            (r, spec_request_bytes(r).len()),
        ),
{
    let buf = spec_request_bytes(r) + rest;
    match r {
        RequestV::Get(k) => {
            assert(buf =~= seq![0x01u8, 0x02u8] + spec_wire_key(k) + rest);
            lemma_wire_key_roundtrip(seq![0x01u8, 0x02u8], k, rest);
        },
        RequestV::Del(k) => {
            assert(buf =~= seq![0x01u8, 0x04u8] + spec_wire_key(k) + rest);
            lemma_wire_key_roundtrip(seq![0x01u8, 0x04u8], k, rest);
        },
        RequestV::SetField(k, f) => {
            let head = seq![0x01u8, 0x03u8];
            assert(buf =~= head + spec_wire_key(k) + (spec_wire_field(f) + rest));
            lemma_wire_key_roundtrip(head, k, spec_wire_field(f) + rest);
            assert(buf =~= (head + spec_wire_key(k)) + spec_wire_field(f) + rest);
            lemma_wire_field_roundtrip(head + spec_wire_key(k), f, rest);
        },
        _ => {},
    }
}

/// The payload of keys, the first one's in front of the others'.
pub proof fn lemma_keys_payload_prepend(first: Seq<u8>, tail: Seq<Seq<u8>>)
    ensures
        spec_keys_payload(seq![first] + tail) == spec_wire_key(first) + spec_keys_payload(tail),
    decreases tail.len(),
{
    let s = seq![first] + tail;
    if tail.len() == 0 {
        assert(s.drop_last() =~= Seq::<Seq<u8>>::empty());
        assert(s.last() == first);
        assert(spec_keys_payload(s) == spec_keys_payload(s.drop_last()) + spec_wire_key(first));
        assert(spec_keys_payload(s.drop_last()) == Seq::<u8>::empty());
        assert(spec_keys_payload(tail) == Seq::<u8>::empty());
        assert(spec_keys_payload(s) =~= spec_wire_key(first) + spec_keys_payload(tail));
    } else {
        lemma_keys_payload_prepend(first, tail.drop_last());
        assert(s.drop_last() =~= seq![first] + tail.drop_last());
        assert(s.last() == tail.last());
        let l = spec_wire_key(tail.last());
        assert(spec_keys_payload(s) == spec_keys_payload(seq![first] + tail.drop_last()) + l);
        assert(spec_keys_payload(tail) == spec_keys_payload(tail.drop_last()) + l);
        assert(spec_keys_payload(s) =~= spec_wire_key(first) + spec_keys_payload(tail));
    }
}

/// The keys of a keys payload read back as the same keys in the same order.
pub proof fn lemma_keys_roundtrip(prefix: Seq<u8>, ks: Seq<Seq<u8>>)
    requires
        forall|i: int| 0 <= i < ks.len() ==> (#[trigger] ks[i]).len() <= u16::MAX,
    ensures
        spec_decode_keys(prefix + spec_keys_payload(ks), prefix.len() as int) == Ok::<Seq<Seq<u8>>, DecodeFailure>(ks),
    decreases ks.len(),
{
    let buf = prefix + spec_keys_payload(ks);
    if ks.len() == 0 {
        assert(buf.len() == prefix.len());
        assert(ks =~= Seq::<Seq<u8>>::empty());
    } else {
        let first = ks[0];
        let tail = ks.drop_first();
        assert(buf =~= prefix + spec_wire_key(first) + spec_keys_payload(tail)) by {
            assert(ks =~= seq![first] + tail);
            lemma_keys_payload_prepend(first, tail);
        }
        assert forall|i: int| 0 <= i < tail.len() implies (#[trigger] tail[i]).len() <= u16::MAX by {
            assert(tail[i] == ks[i + 1]);
        }
        lemma_keys_roundtrip(prefix + spec_wire_key(first), tail);
        assert(ks[0].len() <= u16::MAX);
        lemma_wire_key_roundtrip(prefix, first, spec_keys_payload(tail));
        assert(prefix + spec_wire_key(first) + spec_keys_payload(tail) == buf);
        assert(seq![first] + tail =~= ks);
    }
}

/// Whether a response can be sent so that it reads back: a field or message whose byte count
/// fits a `u32` (the field encodable), keys whose lengths fit a `u16` and whose payload's
/// byte count fits a `u32`.
pub open spec fn response_encodable(r: ResponseV) -> bool {
    match r {
        ResponseV::Success(Some(f)) => field_encodable(f) && spec_field_bytes(f).len() <= u32::MAX,
        ResponseV::ServerError(m) => encode_utf8(m).len() <= u32::MAX,
        ResponseV::Keys(ks) => (forall|i: int| 0 <= i < ks.len() ==> (#[trigger] ks[i]).len() <= u16::MAX)
            && spec_keys_payload(ks).len() <= u32::MAX,
        _ => true,
    }
}

/// A response reads back as itself, whatever follows it, and takes exactly its bytes.
pub proof fn law_response_roundtrip(r: ResponseV, rest: Seq<u8>)
    requires
        response_encodable(r),
    ensures
        spec_decode_response(spec_response_bytes(r) + rest) == Ok::<(ResponseV, nat), DecodeFailure>(
            (r, spec_response_bytes(r).len()),
        ),
{
    crate::endian::lemma_endian_roundtrips();
    let (status, payload) = spec_response_parts(r);
    let buf = spec_response_bytes(r) + rest;
    assert(buf.subrange(1, 5) =~= spec_u32_to_be_bytes(payload.len() as u32));
    assert(buf.subrange(5, 5 + payload.len() as int) =~= payload);
    match r {
        ResponseV::Success(Some(f)) => {
            lemma_field_roundtrip(f);
        },
        ResponseV::ServerError(m) => {
            vstd::utf8::encode_utf8_valid_utf8(m);
            vstd::utf8::encode_utf8_decode_utf8(m);
        },
        ResponseV::Keys(ks) => {
            lemma_keys_roundtrip(Seq::empty(), ks);
            assert(Seq::<u8>::empty() + spec_keys_payload(ks) =~= spec_keys_payload(ks));
        },
        _ => {},
    }
}

/// A frame starts with the message's length, big-endian, and holds the message after it.
pub proof fn law_frame(msg: Seq<u8>)
    requires
        msg.len() <= u32::MAX,
    ensures
        spec_u32_from_be_bytes(spec_frame(msg).subrange(0, 4)) == msg.len(),
        spec_frame(msg).subrange(4, spec_frame(msg).len() as int) == msg,
{
    crate::endian::lemma_endian_roundtrips();
    assert(spec_frame(msg).subrange(0, 4) =~= spec_u32_to_be_bytes(msg.len() as u32));
    assert(spec_frame(msg).subrange(4, spec_frame(msg).len() as int) =~= msg);
}

} // verus!
