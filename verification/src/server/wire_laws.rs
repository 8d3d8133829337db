//! What each byte of the wire format means: the command and status bytes of requests and
//! responses, stated as the bytes themselves. Lengths are big-endian: the reverse of the
//! little-endian bytes vstd defines.

use vstd::prelude::*;
use vstd::bytes::{spec_u16_to_le_bytes, spec_u32_to_le_bytes, spec_u64_to_le_bytes};
use vstd::utf8::encode_utf8;
use crate::dtypes::{
    field_encodable, lemma_field_roundtrip, spec_field_bytes, spec_field_from_bytes, Dtype, FieldV, PrimitiveV,
};
use crate::error::DecodeFailure;
use crate::server::protocol::{
    spec_decode_request, spec_decode_response, spec_frame, spec_keys_payload, spec_request_bytes, spec_response_bytes, RequestV, ResponseV,
};

verus! {

/// A request is the version byte `0x01` and a command byte: `0x01` ping and `0x05` keys, alone;
/// `0x02` get and `0x04` del, each followed by the key (its length, big-endian, then its bytes);
/// `0x03` set, followed by the key and the field (its byte count, big-endian, then its bytes).
/// Decoding such bytes gives that request, whatever follows them, and encoding a request gives
/// those bytes.
pub proof fn law_request_command_bytes(k: Seq<u8>, f: FieldV, rest: Seq<u8>)
    requires
        k.len() <= u16::MAX,
        field_encodable(f),
        spec_field_bytes(f).len() <= u32::MAX,
    ensures
        spec_decode_request(seq![0x01u8, 0x01u8] + rest) == Ok::<(RequestV, nat), DecodeFailure>(
            (RequestV::Ping, 2),
        ),
        spec_decode_request(seq![0x01u8, 0x05u8] + rest) == Ok::<(RequestV, nat), DecodeFailure>(
            (RequestV::Keys, 2),
        ),
        spec_decode_request(seq![0x01u8, 0x02u8] + spec_u16_to_le_bytes(k.len() as u16).reverse() + k + rest)
            == Ok::<(RequestV, nat), DecodeFailure>((RequestV::Get(k), (4 + k.len()) as nat)),
        spec_decode_request(seq![0x01u8, 0x04u8] + spec_u16_to_le_bytes(k.len() as u16).reverse() + k + rest)
            == Ok::<(RequestV, nat), DecodeFailure>((RequestV::Del(k), (4 + k.len()) as nat)),
        spec_decode_request(
            seq![0x01u8, 0x03u8] + spec_u16_to_le_bytes(k.len() as u16).reverse() + k + spec_u32_to_le_bytes(
                spec_field_bytes(f).len() as u32,
            ).reverse() + spec_field_bytes(f) + rest,
        ) == Ok::<(RequestV, nat), DecodeFailure>(
            (RequestV::SetField(k, f), (8 + k.len() + spec_field_bytes(f).len()) as nat),
        ),
        spec_request_bytes(RequestV::Ping) == seq![0x01u8, 0x01u8],
        spec_request_bytes(RequestV::Keys) == seq![0x01u8, 0x05u8],
        spec_request_bytes(RequestV::Get(k)) == seq![0x01u8, 0x02u8] + spec_u16_to_le_bytes(k.len() as u16).reverse()
            + k,
        spec_request_bytes(RequestV::Del(k)) == seq![0x01u8, 0x04u8] + spec_u16_to_le_bytes(k.len() as u16).reverse()
            + k,
        spec_request_bytes(RequestV::SetField(k, f)) == seq![0x01u8, 0x03u8] + spec_u16_to_le_bytes(
            k.len() as u16,
        ).reverse() + k + spec_u32_to_le_bytes(spec_field_bytes(f).len() as u32).reverse() + spec_field_bytes(f),
{
    crate::endian::lemma_endian_roundtrips();
    vstd::bytes::lemma_auto_spec_u16_to_from_le_bytes();
    vstd::bytes::lemma_auto_spec_u32_to_from_le_bytes();
    lemma_field_roundtrip(f);
    let kb = spec_u16_to_le_bytes(k.len() as u16).reverse();
    let n = k.len() as int;
    let fb = spec_field_bytes(f);
    let fl = spec_u32_to_le_bytes(fb.len() as u32).reverse();
    let b1 = seq![0x01u8, 0x01u8] + rest;
    assert(b1[0] == 0x01u8 && b1[1] == 0x01u8);
    let b5 = seq![0x01u8, 0x05u8] + rest;
    assert(b5[0] == 0x01u8 && b5[1] == 0x05u8);
    let b2 = seq![0x01u8, 0x02u8] + kb + k + rest;
    assert(b2[0] == 0x01u8 && b2[1] == 0x02u8);
    assert(b2.subrange(2, 4) =~= kb);
    assert(kb.reverse() =~= spec_u16_to_le_bytes(k.len() as u16));
    assert(b2.subrange(4, 4 + n) =~= k);
    let b4 = seq![0x01u8, 0x04u8] + kb + k + rest;
    assert(b4[0] == 0x01u8 && b4[1] == 0x04u8);
    assert(b4.subrange(2, 4) =~= kb);
    assert(b4.subrange(4, 4 + n) =~= k);
    let b3 = seq![0x01u8, 0x03u8] + kb + k + fl + fb + rest;
    assert(b3[0] == 0x01u8 && b3[1] == 0x03u8);
    assert(b3.subrange(2, 4) =~= kb);
    assert(b3.subrange(4, 4 + n) =~= k);
    assert(b3.subrange(4 + n, 8 + n) =~= fl);
    assert(fl.reverse() =~= spec_u32_to_le_bytes(fb.len() as u32));
    assert(b3.subrange(8 + n, 8 + n + fb.len()) =~= fb);
    assert(spec_request_bytes(RequestV::Get(k)) =~= seq![0x01u8, 0x02u8] + kb + k);
    assert(spec_request_bytes(RequestV::Del(k)) =~= seq![0x01u8, 0x04u8] + kb + k);
    assert(spec_request_bytes(RequestV::SetField(k, f)) =~= seq![0x01u8, 0x03u8] + kb + k + fl + fb);
    assert(spec_request_bytes(RequestV::Ping) =~= seq![0x01u8, 0x01u8]);
    assert(spec_request_bytes(RequestV::Keys) =~= seq![0x01u8, 0x05u8]);
}

/// A request whose version byte is not `0x01` is refused, and so is a command byte outside
/// `0x01` to `0x05`, with that byte.
pub proof fn law_request_refused_bytes(v: u8, c: u8, rest: Seq<u8>)
    ensures
        v != 0x01u8 ==> spec_decode_request(seq![v] + rest) == Err::<(RequestV, nat), DecodeFailure>(
            DecodeFailure::InvalidVersion,
        ),
        !(0x01u8 <= c <= 0x05u8) ==> spec_decode_request(seq![0x01u8, c] + rest) == Err::<
            (RequestV, nat),
            DecodeFailure,
        >(DecodeFailure::UnknownCommand(c)),
{
    assert((seq![v] + rest)[0] == v);
    assert((seq![0x01u8, c] + rest)[0] == 0x01u8);
    assert((seq![0x01u8, c] + rest)[1] == c);
}

/// A response is its status byte, its payload's length (big-endian) and its payload: `0x00`
/// success (the field's bytes, or nothing), `0x01` not found, `0x02` type error, `0x03` server
/// error (the message's UTF-8 bytes), `0x04` invalid request, `0x05` keys (each key's length and
/// bytes). Decoding the empty-payload responses gives them back, whatever follows.
pub proof fn law_response_status_bytes(f: FieldV, m: Seq<char>, k: Seq<u8>, rest: Seq<u8>)
    requires
        k.len() <= u16::MAX,
    ensures
        spec_response_bytes(ResponseV::Success(None)) == seq![0x00u8] + spec_u32_to_le_bytes(0u32).reverse(),
        spec_response_bytes(ResponseV::NotFound) == seq![0x01u8] + spec_u32_to_le_bytes(0u32).reverse(),
        spec_response_bytes(ResponseV::TypeError) == seq![0x02u8] + spec_u32_to_le_bytes(0u32).reverse(),
        spec_response_bytes(ResponseV::InvalidRequest) == seq![0x04u8] + spec_u32_to_le_bytes(0u32).reverse(),
        spec_response_bytes(ResponseV::Success(Some(f))) == seq![0x00u8] + spec_u32_to_le_bytes(
            spec_field_bytes(f).len() as u32,
        ).reverse() + spec_field_bytes(f),
        spec_response_bytes(ResponseV::ServerError(m)) == seq![0x03u8] + spec_u32_to_le_bytes(
            encode_utf8(m).len() as u32,
        ).reverse() + encode_utf8(m),
        spec_response_bytes(ResponseV::Keys(seq![k])) == seq![0x05u8] + spec_u32_to_le_bytes(
            (2 + k.len()) as u32,
        ).reverse() + spec_u16_to_le_bytes(k.len() as u16).reverse() + k,
        spec_decode_response(seq![0x00u8] + spec_u32_to_le_bytes(0u32).reverse() + rest) == Ok::<
            (ResponseV, nat),
            DecodeFailure,
        >((ResponseV::Success(None), 5)),
        spec_decode_response(seq![0x01u8] + spec_u32_to_le_bytes(0u32).reverse() + rest) == Ok::<
            (ResponseV, nat),
            DecodeFailure,
        >((ResponseV::NotFound, 5)),
        spec_decode_response(seq![0x02u8] + spec_u32_to_le_bytes(0u32).reverse() + rest) == Ok::<
            (ResponseV, nat),
            DecodeFailure,
        >((ResponseV::TypeError, 5)),
        spec_decode_response(seq![0x04u8] + spec_u32_to_le_bytes(0u32).reverse() + rest) == Ok::<
            (ResponseV, nat),
            DecodeFailure,
        >((ResponseV::InvalidRequest, 5)),
{
    crate::endian::lemma_endian_roundtrips();
    vstd::bytes::lemma_auto_spec_u32_to_from_le_bytes();
    vstd::bytes::lemma_auto_spec_u16_to_from_le_bytes();
    let z = spec_u32_to_le_bytes(0u32).reverse();
    assert(z.reverse() =~= spec_u32_to_le_bytes(0u32));
    assert(spec_response_bytes(ResponseV::Success(None)) =~= seq![0x00u8] + z);
    assert(spec_response_bytes(ResponseV::NotFound) =~= seq![0x01u8] + z);
    assert(spec_response_bytes(ResponseV::TypeError) =~= seq![0x02u8] + z);
    assert(spec_response_bytes(ResponseV::InvalidRequest) =~= seq![0x04u8] + z);
    let ks = seq![k];
    assert(ks.drop_last() =~= Seq::<Seq<u8>>::empty());
    assert(ks.last() == k);
    let kw = spec_u16_to_le_bytes(k.len() as u16).reverse() + k;
    assert(spec_keys_payload(ks.drop_last()) =~= Seq::<u8>::empty());
    assert(spec_keys_payload(ks) =~= kw);
    assert(kw.len() == 2 + k.len());
    assert(spec_response_bytes(ResponseV::Keys(ks)) =~= seq![0x05u8] + spec_u32_to_le_bytes(
        (2 + k.len()) as u32,
    ).reverse() + spec_u16_to_le_bytes(k.len() as u16).reverse() + k);
    let b0 = seq![0x00u8] + z + rest;
    let b1 = seq![0x01u8] + z + rest;
    let b2 = seq![0x02u8] + z + rest;
    let b4 = seq![0x04u8] + z + rest;
    assert(b0[0] == 0x00u8 && b0.subrange(1, 5) =~= z);
    assert(b1[0] == 0x01u8 && b1.subrange(1, 5) =~= z);
    assert(b2[0] == 0x02u8 && b2.subrange(1, 5) =~= z);
    assert(b4[0] == 0x04u8 && b4.subrange(1, 5) =~= z);
}

/// A field is its data type byte and its payload: `0x00` raw (the bytes), `0x01` integer (eight
/// little-endian bytes of its two's complement), `0x02` float (the eight little-endian bytes of
/// its bits), `0x03` string (its UTF-8 byte count, little-endian, then the bytes), `0x04` boolean
/// (one byte, `1` for true), `0x10` plus the element type for an array (its element count,
/// little-endian, then the elements). A boolean byte other than zero reads as true.
pub proof fn law_field_type_bytes(
    n: i64,
    bits: u64,
    s: Seq<char>,
    b: bool,
    x: u8,
    raw: Seq<u8>,
    a: Seq<PrimitiveV>,
)
    requires
        encode_utf8(s).len() <= u32::MAX,
    ensures
        spec_field_bytes(FieldV::Raw(raw)) == seq![0x00u8] + raw,
        spec_field_bytes(FieldV::Primitive(PrimitiveV::Integer(n))) == seq![0x01u8] + spec_u64_to_le_bytes(
            n as u64,
        ),
        spec_field_bytes(FieldV::Primitive(PrimitiveV::Float(bits))) == seq![0x02u8] + spec_u64_to_le_bytes(bits),
        spec_field_bytes(FieldV::Primitive(PrimitiveV::String(s))) == seq![0x03u8] + spec_u32_to_le_bytes(
            encode_utf8(s).len() as u32,
        ) + encode_utf8(s),
        spec_field_bytes(FieldV::Primitive(PrimitiveV::Boolean(true))) == seq![0x04u8, 0x01u8],
        spec_field_bytes(FieldV::Primitive(PrimitiveV::Boolean(false))) == seq![0x04u8, 0x00u8],
        spec_field_bytes(FieldV::Array(Dtype::Integer, a)).subrange(0, 5) == seq![0x11u8] + spec_u32_to_le_bytes(
            a.len() as u32,
        ),
        spec_field_bytes(FieldV::Array(Dtype::Float, a))[0] == 0x12u8,
        spec_field_bytes(FieldV::Array(Dtype::String, a))[0] == 0x13u8,
        spec_field_bytes(FieldV::Array(Dtype::Boolean, a))[0] == 0x14u8,
        spec_field_from_bytes(seq![0x00u8] + raw) == Ok::<(FieldV, nat), DecodeFailure>(
            (FieldV::Raw(raw), 1 + raw.len()),
        ),
        spec_field_from_bytes(seq![0x01u8] + spec_u64_to_le_bytes(n as u64)) == Ok::<(FieldV, nat), DecodeFailure>(
            (FieldV::Primitive(PrimitiveV::Integer(n)), 9),
        ),
        spec_field_from_bytes(seq![0x02u8] + spec_u64_to_le_bytes(bits)) == Ok::<(FieldV, nat), DecodeFailure>(
            (FieldV::Primitive(PrimitiveV::Float(bits)), 9),
        ),
        spec_field_from_bytes(
            seq![0x03u8] + spec_u32_to_le_bytes(encode_utf8(s).len() as u32) + encode_utf8(s),
        ) == Ok::<(FieldV, nat), DecodeFailure>(
            (FieldV::Primitive(PrimitiveV::String(s)), 5 + encode_utf8(s).len()),
        ),
        spec_field_from_bytes(seq![0x04u8, x]) == Ok::<(FieldV, nat), DecodeFailure>(
            (FieldV::Primitive(PrimitiveV::Boolean(x != 0)), 2),
        ),
{
    crate::endian::lemma_endian_roundtrips();
    vstd::bytes::lemma_auto_spec_u32_to_from_le_bytes();
    vstd::bytes::lemma_auto_spec_u64_to_from_le_bytes();
    let fi = FieldV::Primitive(PrimitiveV::Integer(n));
    let ff = FieldV::Primitive(PrimitiveV::Float(bits));
    let fs = FieldV::Primitive(PrimitiveV::String(s));
    let fr = FieldV::Raw(raw);
    assert(spec_field_bytes(fr) =~= seq![0x00u8] + raw);
    assert(spec_field_bytes(fi) =~= seq![0x01u8] + spec_u64_to_le_bytes(n as u64));
    assert(spec_field_bytes(ff) =~= seq![0x02u8] + spec_u64_to_le_bytes(bits));
    assert(spec_field_bytes(fs) =~= seq![0x03u8] + spec_u32_to_le_bytes(encode_utf8(s).len() as u32)
        + encode_utf8(s));
    assert(spec_field_bytes(FieldV::Primitive(PrimitiveV::Boolean(true))) =~= seq![0x04u8, 0x01u8]);
    assert(spec_field_bytes(FieldV::Primitive(PrimitiveV::Boolean(false))) =~= seq![0x04u8, 0x00u8]);
    assert((0x10u8 | 0x01u8) == 0x11u8 && (0x10u8 | 0x02u8) == 0x12u8 && (0x10u8 | 0x03u8) == 0x13u8 && (0x10u8
        | 0x04u8) == 0x14u8) by (bit_vector);
    assert(spec_field_bytes(FieldV::Array(Dtype::Integer, a)).subrange(0, 5) =~= seq![0x11u8]
        + spec_u32_to_le_bytes(a.len() as u32));
    lemma_field_roundtrip(fi);
    lemma_field_roundtrip(ff);
    lemma_field_roundtrip(fs);
    lemma_field_roundtrip(fr);
    let bb = seq![0x04u8, x];
    assert(bb.skip(1) =~= seq![x]);
}

/// A frame is the message's length as a big-endian `u32`, then the message.
pub proof fn law_frame_bytes(msg: Seq<u8>)
    ensures
        spec_frame(msg) == spec_u32_to_le_bytes(msg.len() as u32).reverse() + msg,
{
}

/// A server-error response reads back as its message, and a keys response with an empty
/// payload as no keys, whatever follows.
pub proof fn law_response_message_bytes(m: Seq<char>, rest: Seq<u8>)
    requires
        encode_utf8(m).len() <= u32::MAX,
    ensures
        spec_decode_response(
            seq![0x03u8] + spec_u32_to_le_bytes(encode_utf8(m).len() as u32).reverse() + encode_utf8(m) + rest,
        ) == Ok::<(ResponseV, nat), DecodeFailure>((ResponseV::ServerError(m), 5 + encode_utf8(m).len())),
        spec_decode_response(seq![0x05u8] + spec_u32_to_le_bytes(0u32).reverse() + rest) == Ok::<
            (ResponseV, nat),
            DecodeFailure,
        >((ResponseV::Keys(Seq::empty()), 5)),
{
    crate::endian::lemma_endian_roundtrips();
    vstd::bytes::lemma_auto_spec_u32_to_from_le_bytes();
    vstd::utf8::encode_utf8_valid_utf8(m);
    vstd::utf8::encode_utf8_decode_utf8(m);
    let mb = encode_utf8(m);
    let l = spec_u32_to_le_bytes(mb.len() as u32).reverse();
    assert(l.reverse() =~= spec_u32_to_le_bytes(mb.len() as u32));
    let b = seq![0x03u8] + l + mb + rest;
    assert(b[0] == 0x03u8);
    assert(b.subrange(1, 5) =~= l);
    assert(b.subrange(5, 5 + mb.len() as int) =~= mb);
    let z = spec_u32_to_le_bytes(0u32).reverse();
    assert(z.reverse() =~= spec_u32_to_le_bytes(0u32));
    let bk = seq![0x05u8] + z + rest;
    assert(bk[0] == 0x05u8);
    assert(bk.subrange(1, 5) =~= z);
    assert(bk.subrange(5, 5) =~= Seq::<u8>::empty());
}

} // verus!
