//! Value types of the database and their byte encodings.

use vstd::prelude::*;
use vstd::utf8::{decode_utf8, encode_utf8, valid_utf8};
use vstd::bytes::{spec_u32_from_le_bytes, spec_u32_to_le_bytes, spec_u64_from_le_bytes, spec_u64_to_le_bytes};
use vstd::std_specs::convert::{FromSpecImpl, TryFromSpecImpl};
use crate::endian::{spec_i64_from_le_bytes, spec_i64_to_le_bytes};
use crate::error::{decodes_as, spec_decimal, DecodeFailure, PeachDbError};

verus! {

/// Bytes that hold a data type.
pub const DTYPE_INFO_BYTE_SIZE: usize = 1;

/// Bytes that hold the length of a field.
pub const FIELD_LEN_BYTE_SIZE: usize = 4;

/// Bytes that hold the length of a key.
pub const KEY_LEN_BYTE_SIZE: usize = 2;

/// The result of a database operation.
pub type PDBResult<T> = Result<T, PeachDbError>;

/// The type of a stored value.
#[derive(Clone, Copy, Debug, PartialEq, Eq, Structural)]
pub enum Dtype {
    Raw,
    Integer,
    Float,
    String,
    Boolean,
    /// An array; the byte names the type of its elements.
    Array(u8),
}

impl Dtype {
    /// The byte that stands for the data type.
    pub open spec fn spec_byte(self) -> u8 {
        match self {
            Dtype::Raw => 0x0,
            Dtype::Integer => 0x1,
            Dtype::Float => 0x2,
            Dtype::String => 0x3,
            Dtype::Boolean => 0x4,
            Dtype::Array(of) => 0x10 | of,
        }
    }

    /// The byte that stands for the data type.
    pub fn as_byte(&self) -> (b: u8)
        ensures
            b == self.spec_byte(),
    {
        match self {
            Dtype::Raw => 0x0,
            Dtype::Integer => 0x1,
            Dtype::Float => 0x2,
            Dtype::String => 0x3,
            Dtype::Boolean => 0x4,
            Dtype::Array(of) => 0x10 | *of,
        }
    }

    /// Whether the data type is one of the four primitive types.
    pub open spec fn is_primitive(self) -> bool {
        self is Integer || self is Float || self is String || self is Boolean
    }
}

/// The data type that a byte stands for: the primitive types and `Raw` by their own byte, an
/// array for `0x10..0x1F` with the low nibble as its element type; `None` for any other byte.
pub open spec fn spec_dtype_from_byte(b: u8) -> Option<Dtype> {
    if b == 0x00 {
        Some(Dtype::Raw)
    } else if b == 0x01 {
        Some(Dtype::Integer)
    } else if b == 0x02 {
        Some(Dtype::Float)
    } else if b == 0x03 {
        Some(Dtype::String)
    } else if b == 0x04 {
        Some(Dtype::Boolean)
    } else if 0x10 <= b < 0x1F {
        Some(Dtype::Array(b & 0x0F))
    } else {
        None
    }
}

impl TryFrom<u8> for Dtype {
    type Error = PeachDbError;

    fn try_from(b: u8) -> (r: Result<Dtype, PeachDbError>) {
        match b {
            0x00 => Ok(Dtype::Raw),
            0x01 => Ok(Dtype::Integer),
            0x02 => Ok(Dtype::Float),
            0x03 => Ok(Dtype::String),
            0x04 => Ok(Dtype::Boolean),
            0x10..0x1F => Ok(Dtype::Array(b & 0x0F)),
            b => Err(PeachDbError::UnknownDtype { byte: b }),
        }
    }
}

impl TryFromSpecImpl<u8> for Dtype {
    open spec fn obeys_try_from_spec() -> bool {
        true
    }

    open spec fn try_from_spec(b: u8) -> Result<Dtype, PeachDbError> {
        match spec_dtype_from_byte(b) {
            Some(d) => Ok(d),
            None => Err(PeachDbError::UnknownDtype { byte: b }),
        }
    }
}

/// The byte of a data type names it again: for every data type but arrays of element type
/// `0x0F` and above.
pub proof fn lemma_dtype_byte_roundtrip(d: Dtype)
    requires
        d matches Dtype::Array(of) ==> of < 0x0F,
    ensures
        spec_dtype_from_byte(d.spec_byte()) == Some(d),
{
    if let Dtype::Array(of) = d {
        assert(0x10 <= (0x10 | of) < 0x1F && ((0x10 | of) & 0x0F) == of) by (bit_vector)
            requires
                of < 0x0F,
        ;
    }
}

/// A single stored value of one of the primitive types.
#[derive(Debug)]
pub enum Primitive {
    Integer(i64),
    /// A floating-point number, held as the bits of its IEEE-754 double-precision form.
    Float(u64),
    String(String),
    Boolean(bool),
}

/// The mathematical value of a [`Primitive`].
pub enum PrimitiveV {
    Integer(i64),
    Float(u64),
    String(Seq<char>),
    Boolean(bool),
}

impl View for Primitive {
    type V = PrimitiveV;

    open spec fn view(&self) -> PrimitiveV {
        match self {
            Primitive::Integer(n) => PrimitiveV::Integer(*n),
            Primitive::Float(f) => PrimitiveV::Float(*f),
            Primitive::String(s) => PrimitiveV::String(s@),
            Primitive::Boolean(b) => PrimitiveV::Boolean(*b),
        }
    }
}

impl Clone for Primitive {
    fn clone(&self) -> (r: Primitive)
        ensures
            r@ == self@,
    {
        match self {
            Primitive::Integer(n) => Primitive::Integer(*n),
            Primitive::Float(f) => Primitive::Float(*f),
            Primitive::String(s) => Primitive::String(s.clone()),
            Primitive::Boolean(b) => Primitive::Boolean(*b),
        }
    }
}

/// A key: any sequence of bytes.
#[derive(Debug, Hash)]
pub struct Key(Vec<u8>);

impl View for Key {
    type V = Seq<u8>;

    closed spec fn view(&self) -> Seq<u8> {
        self.0@
    }
}

impl AsRef<[u8]> for Key {
    fn as_ref(&self) -> (b: &[u8])
        ensures
            b@ == self@,
    {
        self.0.as_slice()
    }
}

impl Clone for Key {
    fn clone(&self) -> (r: Key)
        ensures
            r@ == self@,
    {
        Key(copy_bytes(self.0.as_slice()))
    }
}

/// Whether two byte slices hold the same bytes.
pub fn bytes_eq(a: &[u8], b: &[u8]) -> (r: bool)
    ensures
        r == (a@ == b@),
{
    if a.len() != b.len() {
        return false;
    }
    let mut i: usize = 0;
    while i < a.len()
        invariant
            i <= a.len(),
            a.len() == b.len(),
            a@.subrange(0, i as int) == b@.subrange(0, i as int),
        decreases a.len() - i,
    {
        if a[i] != b[i] {
            assert(a@[i as int] != b@[i as int]);
            return false;
        }
        assert(a@.subrange(0, i + 1) =~= a@.subrange(0, i as int).push(a@[i as int]));
        assert(b@.subrange(0, i + 1) =~= b@.subrange(0, i as int).push(b@[i as int]));
        i = i + 1;
    }
    assert(a@ =~= a@.subrange(0, i as int));
    assert(b@ =~= b@.subrange(0, i as int));
    true
}

/// A new vector with the bytes of `src`.
pub fn copy_bytes(src: &[u8]) -> (r: Vec<u8>)
    ensures
        r@ == src@,
{
    let mut r: Vec<u8> = Vec::new();
    extend_bytes(&mut r, src);
    assert(r@ =~= src@);
    r
}

/// Appends the bytes of `src` to `out`.
pub fn extend_bytes(out: &mut Vec<u8>, src: &[u8])
    ensures
        final(out)@ == old(out)@ + src@,
{
    out.extend_from_slice(src);
    assert(out@ =~= old(out)@ + src@);
}

impl PartialEq for Key {
    fn eq(&self, other: &Key) -> (r: bool) {
        bytes_eq(self.0.as_slice(), other.0.as_slice())
    }
}

impl vstd::std_specs::cmp::PartialEqSpecImpl for Key {
    open spec fn obeys_eq_spec() -> bool {
        true
    }

    open spec fn eq_spec(&self, other: &Key) -> bool {
        self@ == other@
    }
}

impl Eq for Key {
}

impl From<Vec<u8>> for Key {
    fn from(key: Vec<u8>) -> (k: Key)
        ensures
            k@ == key@,
    {
        Key(key)
    }
}

impl FromSpecImpl<Vec<u8>> for Key {
    open spec fn obeys_from_spec() -> bool {
        true
    }

    closed spec fn from_spec(key: Vec<u8>) -> Key {
        Key(key)
    }
}

impl From<&str> for Key {
    fn from(key: &str) -> (k: Key)
        ensures
            k@ == encode_utf8(key@),
    {
        Key(copy_bytes(key.as_bytes()))
    }
}

impl FromSpecImpl<&str> for Key {
    /// The conversion is stated by the `ensures` of `from` itself.
    open spec fn obeys_from_spec() -> bool {
        false
    }

    closed spec fn from_spec(key: &str) -> Key {
        choose|k: Key| k@ == encode_utf8(key@)
    }
}

impl From<&[u8]> for Key {
    fn from(key: &[u8]) -> (k: Key)
        ensures
            k@ == key@,
    {
        Key(copy_bytes(key))
    }
}

impl FromSpecImpl<&[u8]> for Key {
    /// The conversion is stated by the `ensures` of `from` itself.
    open spec fn obeys_from_spec() -> bool {
        false
    }

    closed spec fn from_spec(key: &[u8]) -> Key {
        choose|k: Key| k@ == key@
    }
}

impl Key {
    /// The key with no bytes.
    pub fn empty() -> (k: Key)
        ensures
            k@ == Seq::<u8>::empty(),
    {
        Key(Vec::new())
    }

    /// The key made of the bytes of `key`.
    pub fn from_bytes(key: &[u8]) -> (k: Key)
        ensures
            k@ == key@,
    {
        Key(copy_bytes(key))
    }

    /// The key made of the UTF-8 bytes of `key`.
    pub fn from_str(key: &str) -> (k: Key)
        ensures
            k@ == encode_utf8(key@),
    {
        Key(copy_bytes(key.as_bytes()))
    }

    /// The bytes of the key.
    pub fn as_bytes(&self) -> (b: &[u8])
        ensures
            b@ == self@,
    {
        self.0.as_slice()
    }

    /// The number of bytes in the key.
    pub fn len(&self) -> (n: usize)
        ensures
            n == self@.len(),
    {
        self.0.len()
    }

    /// The key as text: its characters where its bytes are UTF-8, else its bytes in list form
    /// (`[1, 2, 3]`).
    pub fn to_string(&self) -> (s: String)
        ensures
            s@ == spec_key_text(self@),
    {
        match string_from_utf8(copy_bytes(self.0.as_slice())) {
            Ok(text) => text,
            Err(_) => {
                let mut s = String::from_str("[");
                let mut i: usize = 0;
                while i < self.0.len()
                    invariant
                        i <= self.0@.len(),
                        s@ == "["@ + spec_joined_bytes(self.0@.subrange(0, i as int)),
                    decreases self.0@.len() - i,
                {
                    let ghost before = self.0@.subrange(0, i as int);
                    let ghost after = self.0@.subrange(0, i + 1);
                    assert(after.drop_last() =~= before);
                    assert(after.last() == self.0@[i as int]);
                    if i > 0 {
                        s.append(", ");
                    }
                    let d = crate::error::format_decimal(self.0[i] as usize);
                    s.append(d.as_str());
                    proof {
                        if i == 0 {
                            assert(before =~= Seq::<u8>::empty());
                            assert(after.len() == 1);
                        }
                    }
                    assert(s@ =~= "["@ + spec_joined_bytes(after));
                    i = i + 1;
                }
                assert(self.0@.subrange(0, self.0@.len() as int) =~= self.0@);
                s.append("]");
                s
            },
        }
    }

    /// The bytes the key takes where it is stored with its length: two more than its own.
    pub fn size(&self) -> (n: usize)
        requires
            self@.len() + KEY_LEN_BYTE_SIZE <= usize::MAX,
        ensures
            n == KEY_LEN_BYTE_SIZE + self@.len(),
    {
        KEY_LEN_BYTE_SIZE + self.0.len()
    }
}

/// Bytes in decimal, separated by `, `.
pub open spec fn spec_joined_bytes(b: Seq<u8>) -> Seq<char>
    decreases b.len(),
{
    if b.len() == 0 {
        Seq::empty()
    } else if b.len() == 1 {
        spec_decimal(b[0] as nat)
    } else {
        spec_joined_bytes(b.drop_last()) + ", "@ + spec_decimal(b.last() as nat)
    }
}

/// A key as text: the characters its bytes encode where they are UTF-8, else the bytes in list
/// form, `[` and `]` around them.
pub open spec fn spec_key_text(k: Seq<u8>) -> Seq<char> {
    if valid_utf8(k) {
        decode_utf8(k)
    } else {
        "["@ + spec_joined_bytes(k) + "]"@
    }
}

/// A stored value: a primitive, raw bytes, or an array of primitives of one data type.
#[derive(Debug)]
pub enum Field {
    Primitive(Primitive),
    Raw(Vec<u8>),
    Array(Dtype, Vec<Primitive>),
}

/// The mathematical value of a [`Field`].
pub enum FieldV {
    Primitive(PrimitiveV),
    Raw(Seq<u8>),
    Array(Dtype, Seq<PrimitiveV>),
}

/// The values of a sequence of primitives.
pub open spec fn primitives_view(ps: Seq<Primitive>) -> Seq<PrimitiveV> {
    ps.map_values(|p: Primitive| p@)
}

impl View for Field {
    type V = FieldV;

    open spec fn view(&self) -> FieldV {
        match self {
            Field::Primitive(p) => FieldV::Primitive(p@),
            Field::Raw(b) => FieldV::Raw(b@),
            Field::Array(d, a) => FieldV::Array(*d, primitives_view(a@)),
        }
    }
}

/// A copy of a sequence of primitives.
fn clone_primitives(a: &Vec<Primitive>) -> (r: Vec<Primitive>)
    ensures
        primitives_view(r@) == primitives_view(a@),
{
    let mut r: Vec<Primitive> = Vec::new();
    let mut i: usize = 0;
    while i < a.len()
        invariant
            i <= a.len(),
            primitives_view(r@) == primitives_view(a@.subrange(0, i as int)),
        decreases a.len() - i,
    {
        let p = a[i].clone();
        r.push(p);
        assert(primitives_view(a@.subrange(0, i + 1)) =~= primitives_view(
            a@.subrange(0, i as int),
        ).push(a@[i as int]@));
        i = i + 1;
    }
    assert(a@.subrange(0, a@.len() as int) =~= a@);
    r
}

impl Clone for Field {
    fn clone(&self) -> (r: Field)
        ensures
            r@ == self@,
    {
        match self {
            Field::Primitive(p) => Field::Primitive(p.clone()),
            Field::Raw(b) => Field::Raw(copy_bytes(b.as_slice())),
            Field::Array(d, a) => Field::Array(*d, clone_primitives(a)),
        }
    }
}

/// The data type of a primitive value.
pub open spec fn spec_primitive_dtype(p: PrimitiveV) -> Dtype {
    match p {
        PrimitiveV::Integer(_) => Dtype::Integer,
        PrimitiveV::Float(_) => Dtype::Float,
        PrimitiveV::String(_) => Dtype::String,
        PrimitiveV::Boolean(_) => Dtype::Boolean,
    }
}

impl FieldV {
    /// The data type of a field: an array's is the array type of its element type's byte.
    pub open spec fn spec_dtype(self) -> Dtype {
        match self {
            FieldV::Primitive(p) => spec_primitive_dtype(p),
            FieldV::Array(d, _) => Dtype::Array(d.spec_byte()),
            FieldV::Raw(_) => Dtype::Raw,
        }
    }

    /// The number of items in a field: one for a primitive, the bytes of a raw field, the
    /// elements of an array.
    pub open spec fn spec_len(self) -> nat {
        match self {
            FieldV::Primitive(_) => 1,
            FieldV::Raw(b) => b.len(),
            FieldV::Array(_, a) => a.len(),
        }
    }
}

impl Field {
    /// The integer zero.
    pub fn zero() -> (f: Field)
        ensures
            f@ == FieldV::Primitive(PrimitiveV::Integer(0)),
    {
        Field::Primitive(Primitive::Integer(0))
    }

    /// The number of items in the field.
    pub fn len(&self) -> (n: usize)
        ensures
            n == self@.spec_len(),
    {
        match self {
            Field::Primitive(_p) => 1,
            Field::Raw(bytes) => bytes.len(),
            Field::Array(_dtype, a) => a.len(),
        }
    }

    /// The data type of the field.
    pub fn dtype(&self) -> (d: Dtype)
        ensures
            d == self@.spec_dtype(),
    {
        match self {
            Field::Primitive(p) => match p {
                Primitive::Integer(_) => Dtype::Integer,
                Primitive::Float(_) => Dtype::Float,
                Primitive::String(_) => Dtype::String,
                Primitive::Boolean(_) => Dtype::Boolean,
            },
            Field::Array(dtype, _a) => Dtype::Array(dtype.as_byte()),
            Field::Raw(_) => Dtype::Raw,
        }
    }
}

/// The bytes of a primitive value, without its data type: an integer or a float as eight
/// little-endian bytes, a string as the little-endian `u32` count of its UTF-8 bytes followed by
/// them, a boolean as one byte `1` or `0`.
pub open spec fn spec_primitive_bytes(p: PrimitiveV) -> Seq<u8> {
    match p {
        PrimitiveV::Integer(n) => spec_i64_to_le_bytes(n),
        PrimitiveV::Float(f) => spec_u64_to_le_bytes(f),
        PrimitiveV::String(s) => spec_u32_to_le_bytes(encode_utf8(s).len() as u32) + encode_utf8(s),
        PrimitiveV::Boolean(b) => seq![if b { 1u8 } else { 0u8 }],
    }
}

/// The bytes of a sequence of primitives, one after the other.
pub open spec fn spec_primitives_bytes(ps: Seq<PrimitiveV>) -> Seq<u8>
    decreases ps.len(),
{
    if ps.len() == 0 {
        Seq::empty()
    } else {
        spec_primitives_bytes(ps.drop_last()) + spec_primitive_bytes(ps.last())
    }
}

/// The bytes of a field: its data type byte, then a primitive's bytes, a raw field's bytes, or
/// an array's element count as a little-endian `u32` and its elements' bytes.
pub open spec fn spec_field_bytes(f: FieldV) -> Seq<u8> {
    match f {
        FieldV::Primitive(p) => seq![f.spec_dtype().spec_byte()] + spec_primitive_bytes(p),
        FieldV::Raw(b) => seq![Dtype::Raw.spec_byte()] + b,
        FieldV::Array(d, a) => seq![Dtype::Array(d.spec_byte()).spec_byte()]
            + spec_u32_to_le_bytes(a.len() as u32) + spec_primitives_bytes(a),
    }
}

/// The bytes of a primitive value (see [`spec_primitive_bytes`]).
pub fn bytes_from_primitive(p: &Primitive) -> (b: Vec<u8>)
    ensures
        b@ == spec_primitive_bytes(p@),
{
    match p {
        Primitive::Integer(n) => crate::endian::i64_le(*n),
        Primitive::Float(f) => crate::endian::u64_le(*f),
        Primitive::String(s) => {
            let utf8 = s.as_str().as_bytes();
            let mut b = crate::endian::u32_le(#[verifier::truncate] (utf8.len() as u32));
            extend_bytes(&mut b, utf8);
            b
        },
        Primitive::Boolean(v) => {
            let mut b: Vec<u8> = Vec::new();
            b.push(if *v { 1u8 } else { 0u8 });
            assert(b@ =~= seq![if *v { 1u8 } else { 0u8 }]);
            b
        },
    }
}

/// The bytes of a field (see [`spec_field_bytes`]).
pub fn bytes_from_field(f: &Field) -> (b: Vec<u8>)
    ensures
        b@ == spec_field_bytes(f@),
{
    match f {
        Field::Primitive(p) => {
            let primitive = bytes_from_primitive(p);
            let mut out: Vec<u8> = Vec::new();
            out.push(f.dtype().as_byte());
            extend_bytes(&mut out, primitive.as_slice());
            assert(out@ =~= spec_field_bytes(f@));
            out
        },
        Field::Raw(bytes) => {
            let mut out: Vec<u8> = Vec::new();
            out.push(f.dtype().as_byte());
            extend_bytes(&mut out, bytes.as_slice());
            assert(out@ =~= spec_field_bytes(f@));
            out
        },
        Field::Array(dt, array) => {
            let mut out: Vec<u8> = Vec::new();
            let count: u32 = #[verifier::truncate] (array.len() as u32);
            out.push(Dtype::Array(dt.as_byte()).as_byte());
            let c = crate::endian::u32_le(count);
            extend_bytes(&mut out, c.as_slice());
            let ghost head = out@;
            let mut i: usize = 0;
            while i < array.len()
                invariant
                    i <= array.len(),
                    out@ == head + spec_primitives_bytes(primitives_view(array@.subrange(0, i as int))),
                decreases array.len() - i,
            {
                let item = bytes_from_primitive(&array[i]);
                extend_bytes(&mut out, item.as_slice());
                assert(primitives_view(array@.subrange(0, i + 1)).drop_last() =~= primitives_view(
                    array@.subrange(0, i as int),
                ));
                i = i + 1;
            }
            assert(array@.subrange(0, array@.len() as int) =~= array@);
            assert(out@ =~= spec_field_bytes(f@));
            out
        },
    }
}

/// std's `FromUtf8Error`, the error of a failed UTF-8 conversion.
#[verifier::external_type_specification]
#[verifier::external_body]
pub struct ExFromUtf8Error(std::string::FromUtf8Error);

/// std's `String::from_utf8`: succeeds exactly on valid UTF-8, and then holds the characters
/// those bytes encode.
#[verifier::external_body]
pub(crate) fn string_from_utf8(bytes: Vec<u8>) -> (r: Result<String, std::string::FromUtf8Error>)
    ensures
        r is Ok <==> valid_utf8(bytes@),
        r matches Ok(s) ==> s@ == decode_utf8(bytes@),
{
    String::from_utf8(bytes)
}

/// The error for bytes that are not UTF-8: `CorruptedRecord` with the reason `invalid utf8: `
/// followed by std's text for the failure.
fn invalid_utf8_error(e: std::string::FromUtf8Error) -> (r: PeachDbError)
    ensures
        r.reports(DecodeFailure::InvalidUtf8),
{
    let mut reason = String::from_str("invalid utf8: ");
    let text = e.to_string();
    reason.append(text.as_str());
    PeachDbError::CorruptedRecord { reason }
}

/// Decoding a primitive of data type `dt` from the start of `buf`: the value and the number of
/// bytes it took. A buffer that ends before the value does fails with `BufferTooShort`, bytes
/// of a string that are not UTF-8 with `InvalidUtf8`, a data type that is not primitive with
/// `UnknownDtype` and its byte.
pub open spec fn spec_primitive_from_bytes(dt: Dtype, buf: Seq<u8>) -> Result<(PrimitiveV, nat), DecodeFailure> {
    match dt {
        Dtype::Integer => if buf.len() < 8 {
            Err(DecodeFailure::BufferTooShort)
        } else {
            Ok((PrimitiveV::Integer(spec_i64_from_le_bytes(buf.subrange(0, 8))), 8))
        },
        Dtype::Float => if buf.len() < 8 {
            Err(DecodeFailure::BufferTooShort)
        } else {
            Ok((PrimitiveV::Float(spec_u64_from_le_bytes(buf.subrange(0, 8))), 8))
        },
        Dtype::Boolean => if buf.len() < 1 {
            Err(DecodeFailure::BufferTooShort)
        } else {
            Ok((PrimitiveV::Boolean(buf[0] != 0), 1))
        },
        Dtype::String => if buf.len() < 4 {
            Err(DecodeFailure::BufferTooShort)
        } else {
            let len = spec_u32_from_le_bytes(buf.subrange(0, 4)) as nat;
            if buf.len() < 4 + len {
                Err(DecodeFailure::BufferTooShort)
            } else if valid_utf8(buf.subrange(4, 4 + len as int)) {
                Ok((PrimitiveV::String(decode_utf8(buf.subrange(4, 4 + len as int))), (4 + len) as nat))
            } else {
                Err(DecodeFailure::InvalidUtf8)
            }
        },
        _ => Err(DecodeFailure::UnknownDtype(dt.spec_byte())),
    }
}

/// Decoding `n` primitives of data type `dt`, one after another, from `buf` at `start`: their
/// values and the position after the last; the first failure if one fails.
pub open spec fn spec_primitives_from_bytes(dt: Dtype, buf: Seq<u8>, start: nat, n: nat) -> Result<
    (Seq<PrimitiveV>, nat),
    DecodeFailure,
>
    decreases n,
{
    if n == 0 {
        Ok((Seq::empty(), start))
    } else {
        match spec_primitives_from_bytes(dt, buf, start, (n - 1) as nat) {
            Ok((ps, off)) => match spec_primitive_from_bytes(dt, buf.skip(off as int)) {
                Ok((p, c)) => Ok((ps.push(p), off + c)),
                Err(e) => Err(e),
            },
            Err(e) => Err(e),
        }
    }
}

/// Decoding a field from `buf`: its data type byte, then a primitive, the rest of the buffer
/// as raw bytes, or an array's count (little-endian `u32`) and that many elements of its
/// element type. An empty buffer fails with `BufferTooShort`, a byte that names no data type
/// with `UnknownDtype`.
pub open spec fn spec_field_from_bytes(buf: Seq<u8>) -> Result<(FieldV, nat), DecodeFailure> {
    if buf.len() == 0 {
        Err(DecodeFailure::BufferTooShort)
    } else {
        match spec_dtype_from_byte(buf[0]) {
            None => Err(DecodeFailure::UnknownDtype(buf[0])),
            Some(dt) => {
                let payload = buf.skip(1);
                match dt {
                    Dtype::Raw => Ok((FieldV::Raw(payload), buf.len())),
                    Dtype::Array(inner) => if payload.len() < 4 {
                        Err(DecodeFailure::BufferTooShort)
                    } else {
                        let count = spec_u32_from_le_bytes(payload.subrange(0, 4)) as nat;
                        match spec_dtype_from_byte(inner) {
                            None => Err(DecodeFailure::UnknownDtype(inner)),
                            Some(idt) => match spec_primitives_from_bytes(idt, payload, 4, count) {
                                Ok((ps, off)) => Ok((FieldV::Array(idt, ps), 1 + off)),
                                Err(e) => Err(e),
                            },
                        }
                    },
                    _ => match spec_primitive_from_bytes(dt, payload) {
                        Ok((p, c)) => Ok((FieldV::Primitive(p), 1 + c)),
                        Err(e) => Err(e),
                    },
                }
            },
        }
    }
}

/// A primitive never takes more bytes than the buffer holds.
pub proof fn lemma_primitive_from_bytes_len(dt: Dtype, buf: Seq<u8>)
    ensures
        spec_primitive_from_bytes(dt, buf) matches Ok((_, c)) ==> c <= buf.len(),
{
}

/// Decoding primitives one after another ends within the buffer, and a failure among the
/// first `n` stays a failure for more.
pub proof fn lemma_primitives_from_bytes(dt: Dtype, buf: Seq<u8>, start: nat, n: nat, m: nat)
    requires
        start <= buf.len(),
        n <= m,
    ensures
        spec_primitives_from_bytes(dt, buf, start, n) matches Ok((ps, off)) ==> start <= off <= buf.len()
            && ps.len() == n,
        spec_primitives_from_bytes(dt, buf, start, n) is Err ==> spec_primitives_from_bytes(dt, buf, start, m)
            == spec_primitives_from_bytes(dt, buf, start, n),
    decreases m,
{
    if m > n {
        lemma_primitives_from_bytes(dt, buf, start, n, (m - 1) as nat);
    } else if n > 0 {
        lemma_primitives_from_bytes(dt, buf, start, (n - 1) as nat, (n - 1) as nat);
        if let Ok((ps, off)) = spec_primitives_from_bytes(dt, buf, start, (n - 1) as nat) {
            lemma_primitive_from_bytes_len(dt, buf.skip(off as int));
        }
    }
}

/// Decodes a primitive of data type `dt` from the start of `buf` (see
/// [`spec_primitive_from_bytes`]).
pub fn primitive_from_bytes(dt: &Dtype, buf: &[u8]) -> (r: PDBResult<(Primitive, usize)>)
    ensures
        decodes_as(r, spec_primitive_from_bytes(*dt, buf@)),
{
    match dt {
        Dtype::Integer => {
            if buf.len() < 8 {
                return Err(PeachDbError::BufferTooShort);
            }
            Ok((Primitive::Integer(crate::endian::read_i64_le(buf, 0)), 8))
        },
        Dtype::Float => {
            if buf.len() < 8 {
                return Err(PeachDbError::BufferTooShort);
            }
            Ok((Primitive::Float(crate::endian::read_u64_le(buf, 0)), 8))
        },
        Dtype::Boolean => {
            if buf.len() < 1 {
                return Err(PeachDbError::BufferTooShort);
            }
            Ok((Primitive::Boolean(buf[0] != 0), 1))
        },
        Dtype::String => {
            if buf.len() < 4 {
                return Err(PeachDbError::BufferTooShort);
            }
            let len = crate::endian::read_u32_le(buf, 0) as usize;
            if buf.len() - 4 < len {
                return Err(PeachDbError::BufferTooShort);
            }
            let bytes = copy_bytes(&buf[4..4 + len]);
            match string_from_utf8(bytes) {
                Ok(s) => Ok((Primitive::String(s), FIELD_LEN_BYTE_SIZE + len)),
                Err(e) => Err(invalid_utf8_error(e)),
            }
        },
        Dtype::Raw => Err(PeachDbError::UnknownDtype { byte: dt.as_byte() }),
        Dtype::Array(_) => Err(PeachDbError::UnknownDtype { byte: dt.as_byte() }),
    }
}

/// Decodes a field from `buf` (see [`spec_field_from_bytes`]).
pub fn field_from_bytes(buf: &[u8]) -> (r: PDBResult<(Field, usize)>)
    ensures
        decodes_as(r, spec_field_from_bytes(buf@)),
{
    if buf.len() == 0 {
        return Err(PeachDbError::BufferTooShort);
    }
    let dtype = match Dtype::try_from(buf[0]) {
        Ok(d) => d,
        Err(e) => return Err(e),
    };
    let payload = &buf[1..buf.len()];
    assert(payload@ == buf@.skip(1));
    match dtype {
        Dtype::Integer | Dtype::Float | Dtype::String | Dtype::Boolean => {
            match primitive_from_bytes(&dtype, payload) {
                Ok((p, c)) => Ok((Field::Primitive(p), 1 + c)),
                Err(e) => Err(e),
            }
        },
        Dtype::Raw => Ok((Field::Raw(copy_bytes(payload)), 1 + payload.len())),
        Dtype::Array(inner) => {
            if payload.len() < 4 {
                return Err(PeachDbError::BufferTooShort);
            }
            let count = crate::endian::read_u32_le(payload, 0) as usize;
            let mut offset: usize = 4;
            let mut v: Vec<Primitive> = Vec::new();
            let inner_dt = match Dtype::try_from(inner) {
                Ok(d) => d,
                Err(e) => return Err(e),
            };
            let mut i: usize = 0;
            assert(primitives_view(v@) =~= Seq::<PrimitiveV>::empty());
            while i < count
                invariant
                    i <= count,
                    buf@.len() > 0,
                    spec_dtype_from_byte(buf@[0]) == Some(Dtype::Array(inner)),
                    payload@ == buf@.skip(1),
                    4 <= payload@.len(),
                    count == spec_u32_from_le_bytes(payload@.subrange(0, 4)) as nat,
                    spec_dtype_from_byte(inner) == Some(inner_dt),
                    spec_primitives_from_bytes(inner_dt, payload@, 4, i as nat) == Ok::<
                        (Seq<PrimitiveV>, nat),
                        DecodeFailure,
                    >((primitives_view(v@), offset as nat)),
                    offset <= payload@.len(),
                decreases count - i,
            {
                let rest = &payload[offset..payload.len()];
                assert(rest@ == payload@.skip(offset as int));
                match primitive_from_bytes(&inner_dt, rest) {
                    Ok((p, consumed)) => {
                        proof {
                            lemma_primitive_from_bytes_len(inner_dt, rest@);
                        }
                        let ghost old_v = v@;
                        let ghost pv = p@;
                        offset = offset + consumed;
                        v.push(p);
                        assert(primitives_view(v@) =~= primitives_view(old_v).push(pv));
                    },
                    Err(e) => {
                        proof {
                            assert(spec_primitives_from_bytes(inner_dt, payload@, 4, (i + 1) as nat)
                                == Err::<(Seq<PrimitiveV>, nat), DecodeFailure>(
                                spec_primitive_from_bytes(inner_dt, rest@)->Err_0,
                            ));
                            lemma_primitives_from_bytes(inner_dt, payload@, 4, (i + 1) as nat, count as nat);
                        }
                        return Err(e);
                    },
                }
                i = i + 1;
            }
            Ok((Field::Array(inner_dt, v), 1 + offset))
        },
    }
}

/// Whether a primitive can be encoded so that it decodes again: a string's UTF-8 bytes must be
/// countable in a `u32`.
pub open spec fn primitive_encodable(p: PrimitiveV) -> bool {
    p matches PrimitiveV::String(s) ==> encode_utf8(s).len() <= u32::MAX
}

/// Whether a field can be encoded so that it decodes again: its primitives are encodable, and
/// an array has a primitive element type, elements of that type only, and at most `u32::MAX`
/// of them.
pub open spec fn field_encodable(f: FieldV) -> bool {
    match f {
        FieldV::Primitive(p) => primitive_encodable(p),
        FieldV::Raw(_) => true,
        FieldV::Array(d, a) => {
            &&& d.is_primitive()
            &&& a.len() <= u32::MAX
            &&& forall|i: int|
                0 <= i < a.len() ==> spec_primitive_dtype(#[trigger] a[i]) == d && primitive_encodable(a[i])
        },
    }
}

/// Decoding the bytes of an encodable primitive, whatever follows them, gives back the
/// primitive and the number of its bytes.
pub proof fn lemma_primitive_roundtrip(p: PrimitiveV, rest: Seq<u8>)
    requires
        primitive_encodable(p),
    ensures
        spec_primitive_from_bytes(spec_primitive_dtype(p), spec_primitive_bytes(p) + rest) == Ok::<
            (PrimitiveV, nat),
            DecodeFailure,
        >((p, spec_primitive_bytes(p).len())),
{
    crate::endian::lemma_endian_roundtrips();
    let b = spec_primitive_bytes(p);
    let buf = b + rest;
    match p {
        PrimitiveV::Integer(n) => {
            assert(buf.subrange(0, 8) =~= b);
        },
        PrimitiveV::Float(f) => {
            assert(buf.subrange(0, 8) =~= b);
        },
        PrimitiveV::String(s) => {
            let e = encode_utf8(s);
            let len = e.len() as u32;
            assert(buf.subrange(0, 4) =~= spec_u32_to_le_bytes(len));
            assert(buf.subrange(4, 4 + e.len() as int) =~= e);
            vstd::utf8::encode_utf8_valid_utf8(s);
            vstd::utf8::encode_utf8_decode_utf8(s);
        },
        PrimitiveV::Boolean(v) => {
        },
    }
}

/// Decoding the bytes of encodable primitives of data type `dt`, placed at `start` and
/// followed by anything, gives back the primitives and the position after them.
pub proof fn lemma_primitives_roundtrip(dt: Dtype, ps: Seq<PrimitiveV>, prefix: Seq<u8>, rest: Seq<u8>)
    requires
        forall|i: int|
            0 <= i < ps.len() ==> spec_primitive_dtype(#[trigger] ps[i]) == dt && primitive_encodable(ps[i]),
    ensures
        spec_primitives_from_bytes(dt, prefix + spec_primitives_bytes(ps) + rest, prefix.len(), ps.len())
            == Ok::<(Seq<PrimitiveV>, nat), DecodeFailure>(
            (ps, prefix.len() + spec_primitives_bytes(ps).len()),
        ),
    decreases ps.len(),
{
    if ps.len() == 0 {
        assert(ps =~= Seq::<PrimitiveV>::empty());
    } else {
        let init = ps.drop_last();
        let last = ps.last();
        let b_last = spec_primitive_bytes(last);
        assert forall|i: int| 0 <= i < init.len() implies spec_primitive_dtype(#[trigger] init[i]) == dt
            && primitive_encodable(init[i]) by {
            assert(init[i] == ps[i]);
        }
        assert(spec_primitive_dtype(ps[ps.len() - 1]) == dt && primitive_encodable(ps[ps.len() - 1]));
        let whole = prefix + spec_primitives_bytes(ps) + rest;
        assert(whole =~= prefix + spec_primitives_bytes(init) + (b_last + rest));
        lemma_primitives_roundtrip(dt, init, prefix, b_last + rest);
        let off = prefix.len() + spec_primitives_bytes(init).len();
        assert(whole.skip(off as int) =~= b_last + rest);
        lemma_primitive_roundtrip(last, rest);
        assert(init.push(last) =~= ps);
    }
}

/// Decoding the bytes of an encodable field gives back the field and the number of its bytes.
pub proof fn lemma_field_roundtrip(f: FieldV)
    requires
        field_encodable(f),
    ensures
        spec_field_from_bytes(spec_field_bytes(f)) == Ok::<(FieldV, nat), DecodeFailure>(
            (f, spec_field_bytes(f).len()),
        ),
{
    crate::endian::lemma_endian_roundtrips();
    let buf = spec_field_bytes(f);
    match f {
        FieldV::Primitive(p) => {
            lemma_dtype_byte_roundtrip(spec_primitive_dtype(p));
            assert(buf.skip(1) =~= spec_primitive_bytes(p) + Seq::<u8>::empty());
            lemma_primitive_roundtrip(p, Seq::<u8>::empty());
        },
        FieldV::Raw(b) => {
            assert(buf.skip(1) =~= b);
        },
        FieldV::Array(d, a) => {
            let db = d.spec_byte();
            assert(db < 0x0F);
            lemma_dtype_byte_roundtrip(Dtype::Array(db));
            lemma_dtype_byte_roundtrip(d);
            let payload = buf.skip(1);
            let head = spec_u32_to_le_bytes(a.len() as u32);
            assert(payload =~= head + spec_primitives_bytes(a) + Seq::<u8>::empty());
            assert(payload.subrange(0, 4) =~= head);
            lemma_primitives_roundtrip(d, a, head, Seq::<u8>::empty());
        },
    }
}

} // verus!
