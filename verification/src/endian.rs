//! Fixed-width integers as little- and big-endian byte sequences.

use vstd::prelude::*;
use vstd::bytes::{
    spec_u16_from_le_bytes, spec_u16_to_le_bytes, spec_u32_from_le_bytes, spec_u32_to_le_bytes,
    spec_u64_from_le_bytes, spec_u64_to_le_bytes,
};

verus! {

/// The two bytes of `x`, most significant first.
pub open spec fn spec_u16_to_be_bytes(x: u16) -> Seq<u8> {
    spec_u16_to_le_bytes(x).reverse()
}

/// The `u16` whose big-endian bytes are `s`.
pub open spec fn spec_u16_from_be_bytes(s: Seq<u8>) -> u16 {
    spec_u16_from_le_bytes(s.reverse())
}

/// The four bytes of `x`, most significant first.
pub open spec fn spec_u32_to_be_bytes(x: u32) -> Seq<u8> {
    spec_u32_to_le_bytes(x).reverse()
}

/// The `u32` whose big-endian bytes are `s`.
pub open spec fn spec_u32_from_be_bytes(s: Seq<u8>) -> u32 {
    spec_u32_from_le_bytes(s.reverse())
}

/// The eight little-endian bytes of the two's-complement form of `x`.
pub open spec fn spec_i64_to_le_bytes(x: i64) -> Seq<u8> {
    spec_u64_to_le_bytes(x as u64)
}

/// The `i64` whose two's-complement little-endian bytes are `s`.
pub open spec fn spec_i64_from_le_bytes(s: Seq<u8>) -> i64 {
    spec_u64_from_le_bytes(s) as i64
}

/// Encoding then decoding gives back the integer, and each encoding has its fixed width.
pub proof fn lemma_endian_roundtrips()
    ensures
        forall|x: u16| #![trigger spec_u16_to_le_bytes(x)]
            spec_u16_to_le_bytes(x).len() == 2 && spec_u16_from_le_bytes(spec_u16_to_le_bytes(x)) == x,
        forall|x: u32| #![trigger spec_u32_to_le_bytes(x)]
            spec_u32_to_le_bytes(x).len() == 4 && spec_u32_from_le_bytes(spec_u32_to_le_bytes(x)) == x,
        forall|x: u64| #![trigger spec_u64_to_le_bytes(x)]
            spec_u64_to_le_bytes(x).len() == 8 && spec_u64_from_le_bytes(spec_u64_to_le_bytes(x)) == x,
        forall|x: u16| #![trigger spec_u16_to_be_bytes(x)]
            spec_u16_to_be_bytes(x).len() == 2 && spec_u16_from_be_bytes(spec_u16_to_be_bytes(x)) == x,
        forall|x: u32| #![trigger spec_u32_to_be_bytes(x)]
            spec_u32_to_be_bytes(x).len() == 4 && spec_u32_from_be_bytes(spec_u32_to_be_bytes(x)) == x,
        forall|x: i64| #![trigger spec_i64_to_le_bytes(x)]
            spec_i64_to_le_bytes(x).len() == 8 && spec_i64_from_le_bytes(spec_i64_to_le_bytes(x)) == x,
{
    vstd::bytes::lemma_auto_spec_u16_to_from_le_bytes();
    vstd::bytes::lemma_auto_spec_u32_to_from_le_bytes();
    vstd::bytes::lemma_auto_spec_u64_to_from_le_bytes();
    assert forall|x: u16| #[trigger] spec_u16_from_be_bytes(spec_u16_to_be_bytes(x)) == x by {
        assert(spec_u16_to_le_bytes(x).len() == 2);
        assert(spec_u16_to_le_bytes(x).reverse().reverse() =~= spec_u16_to_le_bytes(x));
    }
    assert forall|x: u32| #[trigger] spec_u32_from_be_bytes(spec_u32_to_be_bytes(x)) == x by {
        assert(spec_u32_to_le_bytes(x).len() == 4);
        assert(spec_u32_to_le_bytes(x).reverse().reverse() =~= spec_u32_to_le_bytes(x));
    }
    assert forall|x: i64| #[trigger] spec_i64_from_le_bytes(spec_i64_to_le_bytes(x)) == x by {
        assert(spec_u64_to_le_bytes(x as u64).len() == 8);
        assert(((x as u64) as i64) == x) by (bit_vector);
    }
}

/// Little-endian bytes of a `u16`.
pub fn u16_le(x: u16) -> (b: Vec<u8>)
    ensures
        b@ == spec_u16_to_le_bytes(x),
        b@.len() == 2,
{
    vstd::bytes::u16_to_le_bytes(x)
}

/// Little-endian bytes of a `u32`.
pub fn u32_le(x: u32) -> (b: Vec<u8>)
    ensures
        b@ == spec_u32_to_le_bytes(x),
        b@.len() == 4,
{
    vstd::bytes::u32_to_le_bytes(x)
}

/// Little-endian bytes of a `u64`.
pub fn u64_le(x: u64) -> (b: Vec<u8>)
    ensures
        b@ == spec_u64_to_le_bytes(x),
        b@.len() == 8,
{
    vstd::bytes::u64_to_le_bytes(x)
}

/// Little-endian bytes of an `i64`.
pub fn i64_le(x: i64) -> (b: Vec<u8>)
    ensures
        b@ == spec_i64_to_le_bytes(x),
        b@.len() == 8,
{
    vstd::bytes::u64_to_le_bytes(#[verifier::truncate] (x as u64))
}

/// Big-endian bytes of a `u16`.
pub fn u16_be(x: u16) -> (b: Vec<u8>)
    ensures
        b@ == spec_u16_to_be_bytes(x),
        b@.len() == 2,
{
    let le = vstd::bytes::u16_to_le_bytes(x);
    let mut b: Vec<u8> = Vec::new();
    b.push(le[1]);
    b.push(le[0]);
    assert(b@ =~= le@.reverse());
    b
}

/// Big-endian bytes of a `u32`.
pub fn u32_be(x: u32) -> (b: Vec<u8>)
    ensures
        b@ == spec_u32_to_be_bytes(x),
        b@.len() == 4,
{
    let le = vstd::bytes::u32_to_le_bytes(x);
    let mut b: Vec<u8> = Vec::new();
    b.push(le[3]);
    b.push(le[2]);
    b.push(le[1]);
    b.push(le[0]);
    assert(b@ =~= le@.reverse());
    b
}

/// The `u16` stored little-endian at `buf[pos..pos + 2]`.
pub fn read_u16_le(buf: &[u8], pos: usize) -> (x: u16)
    requires
        pos + 2 <= buf.len(),
    ensures
        x == spec_u16_from_le_bytes(buf@.subrange(pos as int, pos + 2)),
{
    vstd::bytes::u16_from_le_bytes(&buf[pos..pos + 2])
}

/// The `u32` stored little-endian at `buf[pos..pos + 4]`.
pub fn read_u32_le(buf: &[u8], pos: usize) -> (x: u32)
    requires
        pos + 4 <= buf.len(),
    ensures
        x == spec_u32_from_le_bytes(buf@.subrange(pos as int, pos + 4)),
{
    vstd::bytes::u32_from_le_bytes(&buf[pos..pos + 4])
}

/// The `u64` stored little-endian at `buf[pos..pos + 8]`.
pub fn read_u64_le(buf: &[u8], pos: usize) -> (x: u64)
    requires
        pos + 8 <= buf.len(),
    ensures
        x == spec_u64_from_le_bytes(buf@.subrange(pos as int, pos + 8)),
{
    vstd::bytes::u64_from_le_bytes(&buf[pos..pos + 8])
}

/// The `i64` stored little-endian at `buf[pos..pos + 8]`.
pub fn read_i64_le(buf: &[u8], pos: usize) -> (x: i64)
    requires
        pos + 8 <= buf.len(),
    ensures
        x == spec_i64_from_le_bytes(buf@.subrange(pos as int, pos + 8)),
{
    #[verifier::truncate] (vstd::bytes::u64_from_le_bytes(&buf[pos..pos + 8]) as i64)
}

/// The `u16` stored big-endian at `buf[pos..pos + 2]`.
pub fn read_u16_be(buf: &[u8], pos: usize) -> (x: u16)
    requires
        pos + 2 <= buf.len(),
    ensures
        x == spec_u16_from_be_bytes(buf@.subrange(pos as int, pos + 2)),
{
    let mut le: Vec<u8> = Vec::new();
    le.push(buf[pos + 1]);
    le.push(buf[pos]);
    assert(le@ =~= buf@.subrange(pos as int, pos + 2).reverse());
    vstd::bytes::u16_from_le_bytes(le.as_slice())
}

/// The `u32` stored big-endian at `buf[pos..pos + 4]`.
pub fn read_u32_be(buf: &[u8], pos: usize) -> (x: u32)
    requires
        pos + 4 <= buf.len(),
    ensures
        x == spec_u32_from_be_bytes(buf@.subrange(pos as int, pos + 4)),
{
    let mut le: Vec<u8> = Vec::new();
    le.push(buf[pos + 3]);
    le.push(buf[pos + 2]);
    le.push(buf[pos + 1]);
    le.push(buf[pos]);
    assert(le@ =~= buf@.subrange(pos as int, pos + 4).reverse());
    vstd::bytes::u32_from_le_bytes(le.as_slice())
}

} // verus!
