//! Encoders and decoders of the data file (`.db`), its index (`.dbidx`) and the write-ahead log
//! (`.wal`).

use vstd::prelude::*;
use vstd::string::StringExecFns;
use vstd::bytes::{
    spec_u16_from_le_bytes, spec_u16_to_le_bytes, spec_u32_from_le_bytes, spec_u32_to_le_bytes,
    spec_u64_from_le_bytes, spec_u64_to_le_bytes,
};
use vstd::utf8::{decode_utf8, encode_utf8, valid_utf8};
use crate::db::db::IndexEntry;
use crate::db::wal::{entries_view, WalEntry, WalEntryV};
use crate::db::keymap::{pairs_map, KeyMap};
use crate::db::{DbMeta, DbMetaV};
use crate::dtypes::{PDBResult, 
    bytes_from_field, copy_bytes, extend_bytes, field_from_bytes, spec_field_bytes,
    spec_field_from_bytes, Field, FieldV, Key, FIELD_LEN_BYTE_SIZE, KEY_LEN_BYTE_SIZE,
};
use crate::endian::{read_u16_le, read_u32_le, read_u64_le, u16_le, u32_le, u64_le};
use crate::error::{decodes_as, eof_error, spec_eof_error, DecodeFailure, PeachDbError};

verus! {

/// The CRC-32/ISO-HDLC checksum of some bytes, as the `crc` crate computes it.
pub uninterp spec fn crc32_iso_hdlc(data: Seq<u8>) -> u32;

/// The `crc` crate's `Crc::<u32>::new(&CRC_32_ISO_HDLC).checksum`: the CRC-32/ISO-HDLC
/// checksum of `data`, a function of `data` alone.
#[verifier::external_body]
fn checksum(data: &[u8]) -> (c: u32)
    ensures
        c == crc32_iso_hdlc(data@),
{
    crc::Crc::<u32>::new(&crc::CRC_32_ISO_HDLC).checksum(data)
}

/// `n` zero bytes.
pub open spec fn spec_zeros(n: nat) -> Seq<u8> {
    Seq::new(n, |i: int| 0u8)
}

/// Appends `n` zero bytes to `out`.
fn push_zeros(out: &mut Vec<u8>, n: usize)
    ensures
        final(out)@ == old(out)@ + spec_zeros(n as nat),
{
    let mut i: usize = 0;
    while i < n
        invariant
            i <= n,
            out@ == old(out)@ + spec_zeros(i as nat),
        decreases n - i,
    {
        out.push(0u8);
        i = i + 1;
        assert(out@ =~= old(out)@ + spec_zeros(i as nat));
    }
}

/// The `n` bytes of `bytes` at `pos`; the end-of-input error where fewer remain.
fn read_exact<'a>(bytes: &'a [u8], pos: usize, n: usize) -> (r: Result<&'a [u8], PeachDbError>)
    requires
        pos <= bytes@.len(),
    ensures
        pos + n <= bytes@.len() ==> (r matches Ok(s) && s@ == bytes@.subrange(pos as int, pos + n)),
        pos + n > bytes@.len() ==> (r matches Err(e) && spec_eof_error(e)),
{
    if n > bytes.len() - pos {
        Err(eof_error())
    } else {
        Ok(&bytes[pos..pos + n])
    }
}

/// The magic number that starts a live record: `REC` and `0x01`.
pub open spec fn spec_record_magic() -> Seq<u8> {
    seq![0x52u8, 0x45u8, 0x43u8, 0x01u8]
}

/// The bytes a record's checksum covers: its key length, its field length, four zero bytes in
/// place of the checksum, its key and its field.
pub open spec fn spec_crc_input(key_len: u16, field_len: u32, key: Seq<u8>, field: Seq<u8>) -> Seq<u8> {
    spec_u16_to_le_bytes(key_len) + spec_u32_to_le_bytes(field_len) + spec_zeros(4) + key + field
}

/// A live record of the data file: the magic number, the key's length (little-endian `u16`),
/// the field's length (little-endian `u32`), the checksum (little-endian `u32`), the key and the
/// field's bytes.
pub open spec fn spec_record_bytes(key: Seq<u8>, field: FieldV) -> Seq<u8> {
    let payload = spec_field_bytes(field);
    let kl = key.len() as u16;
    let fl = payload.len() as u32;
    spec_record_magic() + spec_u16_to_le_bytes(kl) + spec_u32_to_le_bytes(fl) + spec_u32_to_le_bytes(
        crc32_iso_hdlc(spec_crc_input(kl, fl, key, payload)),
    ) + key + payload
}

/// A deleted record: as many zero bytes as the live record it replaces had, its magic number,
/// lengths, checksum, key and field all zeroed.
pub open spec fn spec_tombstone_bytes(key_len: u16, field_len: u32) -> Seq<u8> {
    spec_zeros((14 + key_len + field_len) as nat)
}

/// The eight-byte name of the header's first entry: `Header--`.
pub open spec fn spec_db_header_key() -> Seq<u8> {
    seq![0x48u8, 0x65u8, 0x61u8, 0x64u8, 0x65u8, 0x72u8, 0x2Du8, 0x2Du8]
}

/// The eight-byte name of the version: `Version-`.
pub open spec fn spec_db_version_key() -> Seq<u8> {
    seq![0x56u8, 0x65u8, 0x72u8, 0x73u8, 0x69u8, 0x6Fu8, 0x6Eu8, 0x2Du8]
}

/// The eight-byte name of the record count: `RecCount`.
pub open spec fn spec_db_record_count_key() -> Seq<u8> {
    seq![0x52u8, 0x65u8, 0x63u8, 0x43u8, 0x6Fu8, 0x75u8, 0x6Eu8, 0x74u8]
}

/// The eight-byte name of the database name: `DB Name-`.
pub open spec fn spec_db_name_key() -> Seq<u8> {
    seq![0x44u8, 0x42u8, 0x20u8, 0x4Eu8, 0x61u8, 0x6Du8, 0x65u8, 0x2Du8]
}

/// The magic number stored after the header's first name.
pub const DB_HEADER_MAGIC: u64 = 0x50656163684442;

/// The major version the header records.
pub const DB_VERSION: u8 = 1;

/// The minor version the header records.
pub const DB_VERSION_DECIMAL: u8 = 0;

/// The bytes the database name takes in the header.
pub const DB_NAME_LEN: usize = 64;

/// The size of the data file's header.
pub const DB_HEADER_LEN: usize = 114;

/// The database name as the header stores it: its first 64 UTF-8 bytes, padded with zeros to 64.
pub open spec fn spec_db_name_bytes(name: Seq<char>) -> Seq<u8> {
    let b = encode_utf8(name);
    let n = if b.len() < 64 { b.len() } else { 64 };
    b.subrange(0, n as int) + spec_zeros((64 - n) as nat)
}

/// The data file's header: the magic number, the version (major then minor), the record count
/// and the database name, each after its eight-byte name.
pub open spec fn spec_db_header_bytes(meta: DbMetaV) -> Seq<u8> {
    spec_db_header_key() + spec_u64_to_le_bytes(DB_HEADER_MAGIC as u64) + spec_db_version_key() + seq![
        DB_VERSION as u8,
        DB_VERSION_DECIMAL as u8,
    ] + spec_db_record_count_key() + spec_u64_to_le_bytes(meta.record_count)
        + spec_db_name_key() + spec_db_name_bytes(meta.name)
}

/// The records of a list of (key, field) pairs, one after another.
pub open spec fn spec_records_bytes(pairs: Seq<(Seq<u8>, FieldV)>) -> Seq<u8>
    decreases pairs.len(),
{
    if pairs.len() == 0 {
        Seq::empty()
    } else {
        spec_records_bytes(pairs.drop_last()) + spec_record_bytes(pairs.last().0, pairs.last().1)
    }
}

/// Builds the bytes of the data file: its header and its records.
pub struct DBEncoder {
    buffer: Vec<u8>,
    field_start_position: usize,
}

impl DBEncoder {
    /// The bytes encoded so far.
    pub closed spec fn bytes(&self) -> Seq<u8> {
        self.buffer@
    }

    /// An encoder with no bytes.
    pub fn new() -> (e: DBEncoder)
        ensures
            e.bytes() == Seq::<u8>::empty(),
    {
        DBEncoder { buffer: Vec::new(), field_start_position: 0 }
    }

    /// An encoder with no bytes and room for `capacity` of them.
    pub fn with_capacity(capacity: usize) -> (e: DBEncoder)
        ensures
            e.bytes() == Seq::<u8>::empty(),
    {
        let buffer = Vec::with_capacity(capacity);
        DBEncoder { buffer, field_start_position: 0 }
    }

    fn write(&mut self, bytes: &[u8])
        ensures
            final(self).bytes() == old(self).bytes() + bytes@,
            final(self).field_start_position == old(self).field_start_position,
    {
        extend_bytes(&mut self.buffer, bytes);
    }

    fn encode_magic_number(&mut self)
        ensures
            final(self).bytes() == old(self).bytes() + spec_record_magic(),
            final(self).field_start_position == old(self).bytes().len(),
    {
        self.field_start_position = self.buffer.len();
        let magic = vec![0x52u8, 0x45u8, 0x43u8, 0x01u8];
        self.write(magic.as_slice());
    }

    fn encode_key_len_u16(&mut self, len: usize)
        ensures
            final(self).bytes() == old(self).bytes() + spec_u16_to_le_bytes(len as u16),
            final(self).field_start_position == old(self).field_start_position,
    {
        let key_len = u16_le(#[verifier::truncate] (len as u16));
        self.write(key_len.as_slice());
    }

    fn encode_field_len_u32(&mut self, len: usize)
        ensures
            final(self).bytes() == old(self).bytes() + spec_u32_to_le_bytes(len as u32),
            final(self).field_start_position == old(self).field_start_position,
    {
        let field_len = u32_le(#[verifier::truncate] (len as u32));
        self.write(field_len.as_slice());
    }

    fn encode_key(&mut self, key: &Key)
        ensures
            final(self).bytes() == old(self).bytes() + key@,
            final(self).field_start_position == old(self).field_start_position,
    {
        self.write(key.as_bytes());
    }

    fn encode_field(&mut self, field: &Field)
        ensures
            final(self).bytes() == old(self).bytes() + spec_field_bytes(field@),
            final(self).field_start_position == old(self).field_start_position,
    {
        let payload = bytes_from_field(field);
        self.write(payload.as_slice());
    }

    fn encode_crc_placeholder(&mut self)
        ensures
            final(self).bytes() == old(self).bytes() + spec_zeros(4),
            final(self).field_start_position == old(self).field_start_position,
    {
        push_zeros(&mut self.buffer, 4);
    }

    /// Writes the checksum of the bytes after the current record's magic number into the
    /// record's checksum slot.
    fn encode_crc(&mut self)
        requires
            old(self).field_start_position + 14 <= old(self).bytes().len(),
        ensures
            final(self).bytes() == old(self).bytes().subrange(0, old(self).field_start_position + 10)
                + spec_u32_to_le_bytes(
                crc32_iso_hdlc(
                    old(self).bytes().subrange(
                        old(self).field_start_position + 4,
                        old(self).bytes().len() as int,
                    ),
                ),
            ) + old(self).bytes().subrange(
                old(self).field_start_position + 14,
                old(self).bytes().len() as int,
            ),
            final(self).field_start_position == old(self).field_start_position,
    {
        let start = self.field_start_position;
        let len = self.buffer.len();
        let c = checksum(&self.buffer[start + 4..len]);
        let cb = u32_le(c);
        let offset = start + 10;
        self.buffer.set(offset, cb[0]);
        self.buffer.set(offset + 1, cb[1]);
        self.buffer.set(offset + 2, cb[2]);
        self.buffer.set(offset + 3, cb[3]);
        assert(self.buffer@ =~= old(self).bytes().subrange(0, start + 10) + cb@
            + old(self).bytes().subrange(start + 14, old(self).bytes().len() as int));
    }

    /// Appends the record of `key` and `field` (see [`spec_record_bytes`]).
    pub fn encode_db_key_field_pair(&mut self, key: &Key, field: &Field)
        ensures
            final(self).bytes() == old(self).bytes() + spec_record_bytes(key@, field@),
    {
        let ghost old_bytes = self.bytes();
        proof {
            crate::endian::lemma_endian_roundtrips();
        }
        let payload = bytes_from_field(field);
        self.encode_magic_number();
        self.encode_key_len_u16(key.len());
        self.encode_field_len_u32(payload.len());
        self.encode_crc_placeholder();
        self.encode_key(key);
        self.write(payload.as_slice());
        let ghost before_crc = self.bytes();
        let ghost kl = #[verifier::truncate] (key@.len() as u16);
        let ghost fl = #[verifier::truncate] (payload@.len() as u32);
        let ghost start = old_bytes.len() as int;
        assert(before_crc =~= old_bytes + spec_record_magic() + spec_u16_to_le_bytes(kl)
            + spec_u32_to_le_bytes(fl) + spec_zeros(4) + key@ + payload@);
        assert(before_crc.subrange(start + 4, before_crc.len() as int) =~= spec_crc_input(
            kl,
            fl,
            key@,
            payload@,
        ));
        self.encode_crc();
        assert(self.bytes() =~= old_bytes + spec_record_bytes(key@, field@));
    }

    fn encode_db_header_key(&mut self)
        ensures
            final(self).bytes() == old(self).bytes() + spec_db_header_key(),
    {
        let k = vec![0x48u8, 0x65u8, 0x61u8, 0x64u8, 0x65u8, 0x72u8, 0x2Du8, 0x2Du8];
        self.write(k.as_slice());
    }

    fn encode_db_header_magic(&mut self)
        ensures
            final(self).bytes() == old(self).bytes() + spec_u64_to_le_bytes(DB_HEADER_MAGIC as u64),
    {
        let m = u64_le(DB_HEADER_MAGIC);
        self.write(m.as_slice());
    }

    fn encode_db_version_key(&mut self)
        ensures
            final(self).bytes() == old(self).bytes() + spec_db_version_key(),
    {
        let k = vec![0x56u8, 0x65u8, 0x72u8, 0x73u8, 0x69u8, 0x6Fu8, 0x6Eu8, 0x2Du8];
        self.write(k.as_slice());
    }

    fn encode_db_version(&mut self)
        ensures
            final(self).bytes() == old(self).bytes().push(DB_VERSION as u8),
    {
        self.buffer.push(DB_VERSION);
    }

    fn encode_db_version_decimal(&mut self)
        ensures
            final(self).bytes() == old(self).bytes().push(DB_VERSION_DECIMAL as u8),
    {
        self.buffer.push(DB_VERSION_DECIMAL);
    }

    fn encode_db_rc_key(&mut self)
        ensures
            final(self).bytes() == old(self).bytes() + spec_db_record_count_key(),
    {
        let k = vec![0x52u8, 0x65u8, 0x63u8, 0x43u8, 0x6Fu8, 0x75u8, 0x6Eu8, 0x74u8];
        self.write(k.as_slice());
    }

    fn encode_db_rc(&mut self, rc: u64)
        ensures
            final(self).bytes() == old(self).bytes() + spec_u64_to_le_bytes(rc),
    {
        let b = u64_le(rc);
        self.write(b.as_slice());
    }

    fn encode_db_name_key(&mut self)
        ensures
            final(self).bytes() == old(self).bytes() + spec_db_name_key(),
    {
        let k = vec![0x44u8, 0x42u8, 0x20u8, 0x4Eu8, 0x61u8, 0x6Du8, 0x65u8, 0x2Du8];
        self.write(k.as_slice());
    }

    fn encode_db_name(&mut self, name: String)
        ensures
            final(self).bytes() == old(self).bytes() + spec_db_name_bytes(name@),
    {
        let name_as_bytes = name.as_str().as_bytes();
        let copy_len = if name_as_bytes.len() < DB_NAME_LEN {
            name_as_bytes.len()
        } else {
            DB_NAME_LEN
        };
        self.write(&name_as_bytes[0..copy_len]);
        push_zeros(&mut self.buffer, DB_NAME_LEN - copy_len);
    }

    /// Appends the data file's header for `meta` (see [`spec_db_header_bytes`]).
    pub fn encode_db_header(&mut self, meta: &DbMeta)
        ensures
            final(self).bytes() == old(self).bytes() + spec_db_header_bytes(meta@),
    {
        let ghost old_bytes = self.bytes();
        self.encode_db_header_key();
        self.encode_db_header_magic();
        self.encode_db_version_key();
        self.encode_db_version();
        self.encode_db_version_decimal();
        self.encode_db_rc_key();
        self.encode_db_rc(meta.record_count);
        self.encode_db_name_key();
        self.encode_db_name(meta.name.clone());
        assert(self.bytes() =~= old_bytes + spec_db_header_bytes(meta@));
    }

    /// Appends a whole data file: the header for `meta`, then the record of each pair of
    /// `fields` in order.
    pub fn encode_db_file(&mut self, fields: &KeyMap<Field>, meta: DbMeta)
        ensures
            final(self).bytes() == old(self).bytes() + spec_db_header_bytes(meta@) + spec_records_bytes(
                fields.pairs(),
            ),
    {
        self.encode_db_header(&meta);
        let ghost head = self.bytes();
        let mut i: usize = 0;
        while i < fields.pairs_len()
            invariant
                i <= fields.pairs().len(),
                self.bytes() == head + spec_records_bytes(fields.pairs().subrange(0, i as int)),
            decreases fields.pairs().len() - i,
        {
            let entry = fields.entry(i);
            self.encode_db_key_field_pair(&entry.0, &entry.1);
            assert(fields.pairs().subrange(0, i + 1).drop_last() =~= fields.pairs().subrange(
                0,
                i as int,
            ));
            i = i + 1;
        }
        assert(fields.pairs().subrange(0, fields.pairs().len() as int) =~= fields.pairs());
    }

    /// Empties the encoder.
    pub fn reset(&mut self)
        ensures
            final(self).bytes() == Seq::<u8>::empty(),
    {
        self.buffer.clear();
        self.field_start_position = 0;
    }

    /// The bytes encoded so far.
    pub fn finish(&self) -> (b: &[u8])
        ensures
            b@ == self.bytes(),
    {
        self.buffer.as_slice()
    }
}

/// The record of `key` and `field` (see [`spec_record_bytes`]).
pub fn encode(key: &Key, field: &Field) -> (r: Vec<u8>)
    ensures
        r@ == spec_record_bytes(key@, field@),
{
    let mut encoder = DBEncoder::new();
    encoder.encode_db_key_field_pair(key, field);
    encoder.buffer
}

/// Builds deleted records (see [`spec_tombstone_bytes`]).
pub struct DBDeleter {
    buffer: Vec<u8>,
    key_len: u16,
    field_len: u32,
}

impl DBDeleter {
    /// The bytes built so far.
    pub closed spec fn bytes(&self) -> Seq<u8> {
        self.buffer@
    }

    /// The key length the next deleted record gets.
    pub closed spec fn spec_key_len(&self) -> u16 {
        self.key_len
    }

    /// The field length the next deleted record gets.
    pub closed spec fn spec_field_len(&self) -> u32 {
        self.field_len
    }

    /// A builder with no bytes and lengths zero.
    pub fn new() -> (d: DBDeleter)
        ensures
            d.bytes() == Seq::<u8>::empty(),
            d.spec_key_len() == 0,
            d.spec_field_len() == 0,
    {
        DBDeleter { buffer: Vec::new(), key_len: 0, field_len: 0 }
    }

    /// Sets the key length of the next deleted record.
    pub fn set_key_len(&mut self, len: u16)
        ensures
            final(self).spec_key_len() == len,
            final(self).spec_field_len() == old(self).spec_field_len(),
            final(self).bytes() == old(self).bytes(),
    {
        self.key_len = len;
    }

    /// Sets the field length of the next deleted record.
    pub fn set_field_len(&mut self, len: u32)
        ensures
            final(self).spec_field_len() == len,
            final(self).spec_key_len() == old(self).spec_key_len(),
            final(self).bytes() == old(self).bytes(),
    {
        self.field_len = len;
    }

    /// Appends a deleted record with the lengths set.
    pub fn get_deleted_field(&mut self)
        ensures
            final(self).bytes() == old(self).bytes() + spec_tombstone_bytes(
                old(self).spec_key_len(),
                old(self).spec_field_len(),
            ),
            final(self).spec_key_len() == old(self).spec_key_len(),
            final(self).spec_field_len() == old(self).spec_field_len(),
    {
        let ghost old_bytes = self.bytes();
        push_zeros(&mut self.buffer, 14);
        push_zeros(&mut self.buffer, self.key_len as usize);
        push_zeros(&mut self.buffer, self.field_len as usize);
        assert(self.bytes() =~= old_bytes + spec_tombstone_bytes(self.key_len, self.field_len));
    }

    /// The bytes built so far.
    pub fn finish(&self) -> (b: &[u8])
        ensures
            b@ == self.bytes(),
    {
        self.buffer.as_slice()
    }

    /// Empties the builder and sets both lengths to zero.
    pub fn reset(&mut self)
        ensures
            final(self).bytes() == Seq::<u8>::empty(),
            final(self).spec_key_len() == 0,
            final(self).spec_field_len() == 0,
    {
        self.buffer.clear();
        self.key_len = 0;
        self.field_len = 0;
    }

}

/// One entry of the index file: the key's length (little-endian `u16`), the key, the field's
/// length (little-endian `u32`) and the record's offset (little-endian `u64`).
pub open spec fn spec_index_entry_bytes(key: Seq<u8>, entry: IndexEntry) -> Seq<u8> {
    spec_u16_to_le_bytes(key.len() as u16) + key + spec_u32_to_le_bytes(entry.field_len)
        + spec_u64_to_le_bytes(entry.offset)
}

/// The index file of a list of (key, entry) pairs: their entries one after another.
pub open spec fn spec_index_bytes(pairs: Seq<(Seq<u8>, IndexEntry)>) -> Seq<u8>
    decreases pairs.len(),
{
    if pairs.len() == 0 {
        Seq::empty()
    } else {
        spec_index_bytes(pairs.drop_last()) + spec_index_entry_bytes(pairs.last().0, pairs.last().1)
    }
}

/// Builds the bytes of the index file.
pub struct IndexEncoder {
    buffer: Vec<u8>,
}

impl IndexEncoder {
    /// The bytes encoded so far.
    pub closed spec fn bytes(&self) -> Seq<u8> {
        self.buffer@
    }

    /// An encoder with no bytes.
    pub fn new() -> (e: IndexEncoder)
        ensures
            e.bytes() == Seq::<u8>::empty(),
    {
        IndexEncoder { buffer: Vec::new() }
    }

    fn write(&mut self, bytes: &[u8])
        ensures
            final(self).bytes() == old(self).bytes() + bytes@,
    {
        extend_bytes(&mut self.buffer, bytes);
    }

    fn encode_key_len(&mut self, len: u16)
        ensures
            final(self).bytes() == old(self).bytes() + spec_u16_to_le_bytes(len),
    {
        let b = u16_le(len);
        self.write(b.as_slice());
    }

    fn encode_key(&mut self, key: &Key)
        ensures
            final(self).bytes() == old(self).bytes() + spec_u16_to_le_bytes(key@.len() as u16) + key@,
    {
        self.encode_key_len(#[verifier::truncate] (key.len() as u16));
        self.write(key.as_bytes());
    }

    fn encode_field_len(&mut self, len: u32)
        ensures
            final(self).bytes() == old(self).bytes() + spec_u32_to_le_bytes(len),
    {
        let b = u32_le(len);
        self.write(b.as_slice());
    }

    fn encode_index(&mut self, idx: u64)
        ensures
            final(self).bytes() == old(self).bytes() + spec_u64_to_le_bytes(idx),
    {
        let b = u64_le(idx);
        self.write(b.as_slice());
    }

    fn encode_index_entry(&mut self, key: &Key, entry: &IndexEntry)
        ensures
            final(self).bytes() == old(self).bytes() + spec_index_entry_bytes(key@, *entry),
    {
        let ghost old_bytes = self.bytes();
        self.encode_key(key);
        self.encode_field_len(entry.field_len);
        self.encode_index(entry.offset);
        assert(self.bytes() =~= old_bytes + spec_index_entry_bytes(key@, *entry));
    }

    /// Appends the entry of each pair of `index`, in order.
    pub fn encode_index_file(&mut self, index: &KeyMap<IndexEntry>)
        ensures
            final(self).bytes() == old(self).bytes() + spec_index_bytes(index.pairs()),
    {
        let ghost head = self.bytes();
        let mut i: usize = 0;
        while i < index.pairs_len()
            invariant
                i <= index.pairs().len(),
                self.bytes() == head + spec_index_bytes(index.pairs().subrange(0, i as int)),
            decreases index.pairs().len() - i,
        {
            let entry = index.entry(i);
            self.encode_index_entry(&entry.0, &entry.1);
            assert(index.pairs().subrange(0, i + 1).drop_last() =~= index.pairs().subrange(
                0,
                i as int,
            ));
            i = i + 1;
        }
        assert(index.pairs().subrange(0, index.pairs().len() as int) =~= index.pairs());
    }

    /// The bytes encoded so far.
    pub fn finish(&self) -> (b: &[u8])
        ensures
            b@ == self.bytes(),
    {
        self.buffer.as_slice()
    }
}

/// The text std's lossy UTF-8 conversion makes of some bytes.
pub uninterp spec fn utf8_lossy(bytes: Seq<u8>) -> Seq<char>;

/// std's `String::from_utf8_lossy`, made an owned `String`: a function of the bytes alone,
/// and the text they encode where they are valid UTF-8.
#[verifier::external_body]
fn string_from_utf8_lossy(bytes: &[u8]) -> (s: String)
    ensures
        s@ == utf8_lossy(bytes@),
        valid_utf8(bytes@) ==> s@ == decode_utf8(bytes@),
{
    String::from_utf8_lossy(bytes).into_owned()
}

/// The position of the first non-zero byte of `b` at or after `i`; the length if none.
pub open spec fn spec_first_nonzero(b: Seq<u8>, i: int) -> int
    decreases b.len() - i,
{
    if i >= b.len() {
        b.len() as int
    } else if b[i] != 0 {
        i
    } else {
        spec_first_nonzero(b, i + 1)
    }
}

/// The end of the last non-zero byte of `b` before `j` and after `lo`; `lo` if none.
pub open spec fn spec_last_nonzero_end(b: Seq<u8>, j: int, lo: int) -> int
    decreases j - lo,
{
    if j <= lo {
        lo
    } else if b[j - 1] != 0 {
        j
    } else {
        spec_last_nonzero_end(b, j - 1, lo)
    }
}

/// `b` without its leading and trailing zero bytes.
pub open spec fn spec_trim_zeros(b: Seq<u8>) -> Seq<u8> {
    let s = spec_first_nonzero(b, 0);
    b.subrange(s, spec_last_nonzero_end(b, b.len() as int, s))
}

/// The bytes of `b` without its leading and trailing zero bytes.
fn trim_zeros(b: &[u8]) -> (r: &[u8])
    ensures
        r@ == spec_trim_zeros(b@),
{
    let mut i: usize = 0;
    while i < b.len() && b[i] == 0
        invariant
            i <= b@.len(),
            spec_first_nonzero(b@, i as int) == spec_first_nonzero(b@, 0),
        decreases b@.len() - i,
    {
        i = i + 1;
    }
    let mut j: usize = b.len();
    while j > i && b[j - 1] == 0
        invariant
            i <= j <= b@.len(),
            spec_first_nonzero(b@, 0) == i,
            spec_last_nonzero_end(b@, j as int, i as int) == spec_last_nonzero_end(
                b@,
                b@.len() as int,
                i as int,
            ),
        decreases j - i,
    {
        j = j - 1;
    }
    &b[i..j]
}

/// Whether eight bytes are one of the header's names.
pub open spec fn spec_is_metadata_key(k: Seq<u8>) -> bool {
    k == spec_db_header_key() || k == spec_db_version_key() || k == spec_db_record_count_key() || k
        == spec_db_name_key()
}

/// Whether the header's name, where its bytes (zeros trimmed) are UTF-8, reads back as the
/// text they encode: the lossy conversion of valid UTF-8 is the text itself.
pub open spec fn spec_header_name_is_text(buf: Seq<u8>) -> bool {
    let b = spec_trim_zeros(buf.subrange(50, 114));
    valid_utf8(b) ==> utf8_lossy(b) == decode_utf8(b)
}

/// Decoding the data file's header: four names, each of which must be one of the header's
/// names (else `InvalidMagicBytes`), around the magic number (not checked), the version, the
/// record count and the database name (zeros trimmed, converted lossily). Where the input ends
/// first, `Eof`. The header takes 114 bytes.
pub open spec fn spec_decode_db_header(buf: Seq<u8>) -> Result<(DbMetaV, nat), DecodeFailure> {
    if buf.len() < 8 {
        Err(DecodeFailure::Eof)
    } else if !spec_is_metadata_key(buf.subrange(0, 8)) {
        Err(DecodeFailure::InvalidMagicBytes)
    } else if buf.len() < 24 {
        Err(DecodeFailure::Eof)
    } else if !spec_is_metadata_key(buf.subrange(16, 24)) {
        Err(DecodeFailure::InvalidMagicBytes)
    } else if buf.len() < 34 {
        Err(DecodeFailure::Eof)
    } else if !spec_is_metadata_key(buf.subrange(26, 34)) {
        Err(DecodeFailure::InvalidMagicBytes)
    } else if buf.len() < 50 {
        Err(DecodeFailure::Eof)
    } else if !spec_is_metadata_key(buf.subrange(42, 50)) {
        Err(DecodeFailure::InvalidMagicBytes)
    } else if buf.len() < 114 {
        Err(DecodeFailure::Eof)
    } else {
        Ok(
            (
                DbMetaV {
                    version: buf[24],
                    record_count: spec_u64_from_le_bytes(buf.subrange(34, 42)),
                    name: utf8_lossy(spec_trim_zeros(buf.subrange(50, 114))),
                },
                114,
            ),
        )
    }
}

/// The key length stored in the record (or deleted record) at `pos`.
pub open spec fn spec_record_key_len(buf: Seq<u8>, pos: int) -> nat {
    spec_u16_from_le_bytes(buf.subrange(pos + 4, pos + 6)) as nat
}

/// The field length stored in the record (or deleted record) at `pos`.
pub open spec fn spec_record_field_len(buf: Seq<u8>, pos: int) -> nat {
    spec_u32_from_le_bytes(buf.subrange(pos + 6, pos + 10)) as nat
}

/// The position after the record (or deleted record) at `pos`.
pub open spec fn spec_record_end(buf: Seq<u8>, pos: int) -> int {
    pos + 14 + spec_record_key_len(buf, pos) + spec_record_field_len(buf, pos)
}

/// Decoding the live record at `pos`: its key, its field and the position after it. Where the
/// input ends first, `Eof`; a wrong magic number is `InvalidMagicBytes`, a checksum that does
/// not match `ChecksumMismatch`; the field's own failures come after these.
pub open spec fn spec_decode_record(buf: Seq<u8>, pos: int) -> Result<((Seq<u8>, FieldV), nat), DecodeFailure> {
    if buf.len() < pos + 4 {
        Err(DecodeFailure::Eof)
    } else if buf.subrange(pos, pos + 4) != spec_record_magic() {
        Err(DecodeFailure::InvalidMagicBytes)
    } else if buf.len() < pos + 14 {
        Err(DecodeFailure::Eof)
    } else {
        let kl = spec_record_key_len(buf, pos);
        let fl = spec_record_field_len(buf, pos);
        let crc = spec_u32_from_le_bytes(buf.subrange(pos + 10, pos + 14));
        if buf.len() < pos + 14 + kl + fl {
            Err(DecodeFailure::Eof)
        } else {
            let key = buf.subrange(pos + 14, pos + 14 + kl);
            let field = buf.subrange(pos + 14 + kl, pos + 14 + kl + fl);
            if crc32_iso_hdlc(spec_crc_input(kl as u16, fl as u32, key, field)) != crc {
                Err(DecodeFailure::ChecksumMismatch)
            } else {
                match spec_field_from_bytes(field) {
                    Ok((f, _)) => Ok(((key, f), (pos + 14 + kl + fl) as nat)),
                    Err(e) => Err(e),
                }
            }
        }
    }
}

/// Whether a deleted record's bytes are at `pos`: a zero byte where a live record has the first
/// byte of its magic number.
pub open spec fn spec_is_tombstone(buf: Seq<u8>, pos: int) -> bool {
    0 <= pos < buf.len() && buf[pos] == 0
}

/// Decoding the records from `pos` to the end of the data file: the (key, field) pairs of the
/// live records in order. The zero bytes of deleted records are passed over one by one, up to
/// the next live record's magic number.
pub open spec fn spec_decode_records(buf: Seq<u8>, pos: int) -> Result<Seq<(Seq<u8>, FieldV)>, DecodeFailure>
    decreases buf.len() - pos,
{
    if pos < 0 || pos >= buf.len() {
        Ok(Seq::empty())
    } else if spec_is_tombstone(buf, pos) {
        spec_decode_records(buf, pos + 1)
    } else {
        match spec_decode_record(buf, pos) {
            Ok((kv, _)) => match spec_decode_records(buf, spec_record_end(buf, pos)) {
                Ok(rest) => Ok(seq![kv] + rest),
                Err(e) => Err(e),
            },
            Err(e) => Err(e),
        }
    }
}

/// Decoding a whole data file: its header, then its records.
pub open spec fn spec_decode_db_file(buf: Seq<u8>) -> Result<(DbMetaV, Seq<(Seq<u8>, FieldV)>), DecodeFailure> {
    match spec_decode_db_header(buf) {
        Ok((meta, p)) => match spec_decode_records(buf, p as int) {
            Ok(pairs) => Ok((meta, pairs)),
            Err(e) => Err(e),
        },
        Err(e) => Err(e),
    }
}

/// The map `m` after inserting each pair of `pairs` in order.
pub open spec fn insert_all<V>(m: Map<Seq<u8>, V>, pairs: Seq<(Seq<u8>, V)>) -> Map<Seq<u8>, V>
    decreases pairs.len(),
{
    if pairs.len() == 0 {
        m
    } else {
        insert_all(m, pairs.drop_last()).insert(pairs.last().0, pairs.last().1)
    }
}

/// A live record ends where its lengths say.
pub proof fn lemma_decode_record_end(buf: Seq<u8>, pos: int)
    requires
        0 <= pos,
    ensures
        spec_decode_record(buf, pos) matches Ok((_, next)) ==> next == spec_record_end(buf, pos) && pos
            + 14 <= next <= buf.len(),
{
}

/// Inserting pairs one more at the front.
pub proof fn lemma_insert_all_prepend<V>(m: Map<Seq<u8>, V>, kv: (Seq<u8>, V), rest: Seq<(Seq<u8>, V)>)
    ensures
        insert_all(m, seq![kv] + rest) == insert_all(m.insert(kv.0, kv.1), rest),
    decreases rest.len(),
{
    let s = seq![kv] + rest;
    if rest.len() == 0 {
        assert(s.drop_last() =~= Seq::<(Seq<u8>, V)>::empty());
        assert(s.last() == kv);
        assert(insert_all(m, s) == insert_all(m, s.drop_last()).insert(kv.0, kv.1));
        assert(insert_all(m.insert(kv.0, kv.1), rest) == m.insert(kv.0, kv.1));
    } else {
        lemma_insert_all_prepend(m, kv, rest.drop_last());
        assert(s.drop_last() =~= seq![kv] + rest.drop_last());
        assert(s.last() == rest.last());
        assert(insert_all(m, s) == insert_all(m, s.drop_last()).insert(s.last().0, s.last().1));
    }
}

/// Decodes data-file bytes into a map of keys to fields and the header's contents.
pub struct DBDecoder<'a> {
    bytes: &'a [u8],
    pos: usize,
    db: KeyMap<Field>,
    meta: Option<DbMeta>,
    last_key_len: u16,
    last_field_len: u32,
    last_crc: u32,
    last_key: Vec<u8>,
    last_field: Vec<u8>,
}

impl<'a> DBDecoder<'a> {
    /// The bytes being decoded.
    pub closed spec fn input(&self) -> Seq<u8> {
        self.bytes@
    }

    /// The position of the next read.
    pub closed spec fn position(&self) -> nat {
        self.pos as nat
    }

    /// The pairs decoded so far, as a map.
    pub closed spec fn decoded(&self) -> Map<Seq<u8>, FieldV> {
        self.db.view()
    }

    /// The header's contents, once decoded.
    pub closed spec fn header(&self) -> Option<DbMetaV> {
        match self.meta {
            Some(m) => Some(m@),
            None => None,
        }
    }

    /// Whether the decoder is consistent: its position within the input, its map well formed.
    pub closed spec fn wf(&self) -> bool {
        self.pos <= self.bytes@.len() && self.bytes@.len() <= usize::MAX && self.db.wf()
    }

    /// A decoder of `bytes` at their start, with nothing decoded.
    pub fn new(bytes: &'a [u8]) -> (d: DBDecoder<'a>)
        ensures
            d.wf(),
            d.input() == bytes@,
            d.position() == 0,
            d.decoded() == Map::<Seq<u8>, FieldV>::empty(),
            d.header() is None,
    {
        let _n = bytes.len();
        DBDecoder {
            bytes,
            pos: 0,
            db: KeyMap::new(),
            meta: None,
            last_key_len: 0u16,
            last_field_len: 0u32,
            last_crc: 0u32,
            last_key: Vec::new(),
            last_field: Vec::new(),
        }
    }

    fn read_magic_number(&mut self) -> (r: PDBResult<()>)
        requires
            old(self).wf(),
        ensures
            final(self).wf(),
            final(self).bytes == old(self).bytes,
            final(self).db == old(self).db,
            final(self).meta == old(self).meta,
            old(self).pos + 4 > old(self).bytes@.len() ==> (r matches Err(e) && spec_eof_error(e)),
            old(self).pos + 4 <= old(self).bytes@.len() ==> {
                &&& final(self).pos == old(self).pos + 4
                &&& old(self).bytes@.subrange(old(self).pos as int, old(self).pos + 4) == spec_record_magic() ==> r is Ok
                &&& old(self).bytes@.subrange(old(self).pos as int, old(self).pos + 4) != spec_record_magic() ==> (r matches Err(e) && e is InvalidMagicBytes)
            },
    {
        let rec_magic_number = read_exact(self.bytes, self.pos, 4)?;
        self.pos = self.pos + 4;
        if !(rec_magic_number[0] == 0x52u8 && rec_magic_number[1] == 0x45u8 && rec_magic_number[2] == 0x43u8
            && rec_magic_number[3] == 0x01u8) {
            assert(rec_magic_number@ != spec_record_magic()) by {
                if rec_magic_number@ == spec_record_magic() {
                    assert(rec_magic_number@[0] == spec_record_magic()[0]);
                    assert(rec_magic_number@[1] == spec_record_magic()[1]);
                    assert(rec_magic_number@[2] == spec_record_magic()[2]);
                    assert(rec_magic_number@[3] == spec_record_magic()[3]);
                }
            }
            return Err(PeachDbError::InvalidMagicBytes);
        }
        assert(rec_magic_number@ =~= spec_record_magic());
        Ok(())
    }

    fn read_key_len(&mut self) -> (r: PDBResult<()>)
        requires
            old(self).wf(),
        ensures
            final(self).wf(),
            final(self).bytes == old(self).bytes,
            final(self).db == old(self).db,
            final(self).meta == old(self).meta,
            final(self).last_field_len == old(self).last_field_len,
            old(self).pos + 2 > old(self).bytes@.len() ==> (r matches Err(e) && spec_eof_error(e)),
            old(self).pos + 2 <= old(self).bytes@.len() ==> r is Ok && final(self).pos == old(self).pos + 2
                && final(self).last_key_len == spec_u16_from_le_bytes(
                old(self).bytes@.subrange(old(self).pos as int, old(self).pos + 2),
            ),
    {
        let b = read_exact(self.bytes, self.pos, 2)?;
        self.last_key_len = read_u16_le(b, 0);
        assert(b@.subrange(0, 2) =~= b@);
        self.pos = self.pos + 2;
        Ok(())
    }

    fn read_field_len(&mut self) -> (r: PDBResult<()>)
        requires
            old(self).wf(),
        ensures
            final(self).wf(),
            final(self).bytes == old(self).bytes,
            final(self).db == old(self).db,
            final(self).meta == old(self).meta,
            final(self).last_key_len == old(self).last_key_len,
            old(self).pos + 4 > old(self).bytes@.len() ==> (r matches Err(e) && spec_eof_error(e)),
            old(self).pos + 4 <= old(self).bytes@.len() ==> r is Ok && final(self).pos == old(self).pos + 4
                && final(self).last_field_len == spec_u32_from_le_bytes(
                old(self).bytes@.subrange(old(self).pos as int, old(self).pos + 4),
            ),
    {
        let b = read_exact(self.bytes, self.pos, 4)?;
        self.last_field_len = read_u32_le(b, 0);
        assert(b@.subrange(0, 4) =~= b@);
        self.pos = self.pos + 4;
        Ok(())
    }

    fn read_crc(&mut self) -> (r: PDBResult<()>)
        requires
            old(self).wf(),
        ensures
            final(self).wf(),
            final(self).bytes == old(self).bytes,
            final(self).db == old(self).db,
            final(self).meta == old(self).meta,
            final(self).last_key_len == old(self).last_key_len,
            final(self).last_field_len == old(self).last_field_len,
            old(self).pos + 4 > old(self).bytes@.len() ==> (r matches Err(e) && spec_eof_error(e)),
            old(self).pos + 4 <= old(self).bytes@.len() ==> r is Ok && final(self).pos == old(self).pos + 4
                && final(self).last_crc == spec_u32_from_le_bytes(
                old(self).bytes@.subrange(old(self).pos as int, old(self).pos + 4),
            ),
    {
        let b = read_exact(self.bytes, self.pos, 4)?;
        self.last_crc = read_u32_le(b, 0);
        assert(b@.subrange(0, 4) =~= b@);
        self.pos = self.pos + 4;
        Ok(())
    }

    fn read_key(&mut self) -> (r: PDBResult<()>)
        requires
            old(self).wf(),
        ensures
            final(self).wf(),
            final(self).bytes == old(self).bytes,
            final(self).db == old(self).db,
            final(self).meta == old(self).meta,
            final(self).last_key_len == old(self).last_key_len,
            final(self).last_field_len == old(self).last_field_len,
            final(self).last_crc == old(self).last_crc,
            old(self).pos + old(self).last_key_len > old(self).bytes@.len() ==> (r matches Err(e)
                && spec_eof_error(e)),
            old(self).pos + old(self).last_key_len <= old(self).bytes@.len() ==> r is Ok && final(self).pos
                == old(self).pos + old(self).last_key_len && final(self).last_key@ == old(self).bytes@.subrange(
                old(self).pos as int,
                old(self).pos + old(self).last_key_len,
            ),
    {
        let n = self.last_key_len as usize;
        let b = read_exact(self.bytes, self.pos, n)?;
        self.last_key = copy_bytes(b);
        self.pos = self.pos + n;
        Ok(())
    }

    fn read_field(&mut self) -> (r: PDBResult<()>)
        requires
            old(self).wf(),
        ensures
            final(self).wf(),
            final(self).bytes == old(self).bytes,
            final(self).db == old(self).db,
            final(self).meta == old(self).meta,
            final(self).last_key_len == old(self).last_key_len,
            final(self).last_field_len == old(self).last_field_len,
            final(self).last_crc == old(self).last_crc,
            final(self).last_key == old(self).last_key,
            old(self).pos + old(self).last_field_len > old(self).bytes@.len() ==> (r matches Err(e)
                && spec_eof_error(e)),
            old(self).pos + old(self).last_field_len <= old(self).bytes@.len() ==> r is Ok && final(self).pos
                == old(self).pos + old(self).last_field_len && final(self).last_field@
                == old(self).bytes@.subrange(old(self).pos as int, old(self).pos + old(self).last_field_len),
    {
        let n = self.last_field_len as usize;
        let b = read_exact(self.bytes, self.pos, n)?;
        self.last_field = copy_bytes(b);
        self.pos = self.pos + n;
        Ok(())
    }

    fn check_crc(&self) -> (r: PDBResult<()>)
        ensures
            r is Ok <==> crc32_iso_hdlc(
                spec_crc_input(self.last_key_len, self.last_field_len, self.last_key@, self.last_field@),
            ) == self.last_crc,
            r matches Err(e) ==> e.reports(DecodeFailure::ChecksumMismatch),
    {
        let mut header_for_crc: Vec<u8> = Vec::new();
        let kl = u16_le(self.last_key_len);
        extend_bytes(&mut header_for_crc, kl.as_slice());
        let fl = u32_le(self.last_field_len);
        extend_bytes(&mut header_for_crc, fl.as_slice());
        push_zeros(&mut header_for_crc, 4);
        extend_bytes(&mut header_for_crc, self.last_key.as_slice());
        extend_bytes(&mut header_for_crc, self.last_field.as_slice());
        assert(header_for_crc@ =~= spec_crc_input(
            self.last_key_len,
            self.last_field_len,
            self.last_key@,
            self.last_field@,
        ));
        let computed = checksum(header_for_crc.as_slice());
        if computed != self.last_crc {
            return Err(PeachDbError::CorruptedRecord { reason: String::from_str("Checksum Mismatch") });
        }
        Ok(())
    }

    /// Decodes the record at the current position and maps its key to its field (see
    /// [`spec_decode_record`]). On failure the map and the header's contents are unchanged.
    pub fn decode_db_key_field_pair(&mut self) -> (r: PDBResult<()>)
        requires
            old(self).wf(),
        ensures
            final(self).wf(),
            final(self).input() == old(self).input(),
            final(self).header() == old(self).header(),
            match spec_decode_record(old(self).input(), old(self).position() as int) {
                Ok(((k, f), next)) => r is Ok && final(self).position() == next && final(self).decoded()
                    == old(self).decoded().insert(k, f),
                Err(d) => (r matches Err(e) && e.reports(d)) && final(self).decoded() == old(self).decoded(),
            },
    {
        proof {
            crate::endian::lemma_endian_roundtrips();
        }
        let ghost buf = self.bytes@;
        let ghost p = self.pos as int;
        self.read_magic_number()?;
        self.read_key_len()?;
        self.read_field_len()?;
        self.read_crc()?;
        assert(self.last_key_len == spec_record_key_len(buf, p) as u16);
        assert(self.last_field_len == spec_record_field_len(buf, p) as u32);
        self.read_key()?;
        self.read_field()?;
        self.check_crc()?;
        let (field, _) = field_from_bytes(self.last_field.as_slice())?;
        let key = Key::from(copy_bytes(self.last_key.as_slice()));
        self.db.insert(key, field);
        Ok(())
    }

    fn read_metadata_key(&mut self) -> (r: PDBResult<()>)
        requires
            old(self).wf(),
        ensures
            final(self).wf(),
            final(self).bytes == old(self).bytes,
            final(self).db == old(self).db,
            final(self).meta == old(self).meta,
            old(self).pos + 8 > old(self).bytes@.len() ==> (r matches Err(e) && spec_eof_error(e)),
            old(self).pos + 8 <= old(self).bytes@.len() ==> {
                &&& final(self).pos == old(self).pos + 8
                &&& r is Ok <==> spec_is_metadata_key(old(self).bytes@.subrange(old(self).pos as int, old(self).pos + 8))
                &&& r matches Err(e) ==> e is InvalidMagicBytes
            },
    {
        let key_buf = read_exact(self.bytes, self.pos, 8)?;
        self.pos = self.pos + 8;
        if !is_metadata_key(key_buf) {
            return Err(PeachDbError::InvalidMagicBytes);
        }
        Ok(())
    }

    fn decode_db_header(&mut self) -> (r: PDBResult<()>)
        requires
            old(self).wf(),
        ensures
            final(self).wf(),
            final(self).bytes == old(self).bytes,
            final(self).db == old(self).db,
            match spec_decode_db_header(old(self).input()) {
                Ok((meta, p)) => r is Ok && final(self).pos == p && final(self).header() == Some(meta)
                    && spec_header_name_is_text(old(self).input()),
                Err(d) => r matches Err(e) && e.reports(d) && final(self).meta == old(self).meta,
            },
    {
        proof {
            crate::endian::lemma_endian_roundtrips();
        }
        self.pos = 0;
        self.read_metadata_key()?;
        let _header = read_exact(self.bytes, self.pos, 8)?;
        self.pos = self.pos + 8;
        self.read_metadata_key()?;
        let version = read_exact(self.bytes, self.pos, 1)?[0];
        self.pos = self.pos + 1;
        let _version_decimal = read_exact(self.bytes, self.pos, 1)?[0];
        self.pos = self.pos + 1;
        self.read_metadata_key()?;
        let rc = read_exact(self.bytes, self.pos, 8)?;
        let record_count = read_u64_le(rc, 0);
        assert(rc@.subrange(0, 8) =~= rc@);
        self.pos = self.pos + 8;
        self.read_metadata_key()?;
        let db_name = read_exact(self.bytes, self.pos, DB_NAME_LEN)?;
        self.pos = self.pos + DB_NAME_LEN;
        let name = string_from_utf8_lossy(trim_zeros(db_name));
        assert(db_name@ =~= self.bytes@.subrange(50, 114));
        self.meta = Some(DbMeta { version, record_count, name });
        Ok(())
    }

    /// Decodes a whole data file from its start (see [`spec_decode_db_file`]): its header's
    /// contents become the decoder's, and each live record's pair is mapped in order. Deleted
    /// records are passed over.
    pub fn decode_db_file(&mut self) -> (r: PDBResult<()>)
        requires
            old(self).wf(),
        ensures
            final(self).wf(),
            final(self).input() == old(self).input(),
            match spec_decode_db_file(old(self).input()) {
                Ok((meta, pairs)) => r is Ok && final(self).header() == Some(meta) && final(self).decoded()
                    == insert_all(old(self).decoded(), pairs) && final(self).position() == old(self).input().len(),
                Err(d) => r matches Err(e) && e.reports(d),
            },
            spec_decode_db_header(old(self).input()) is Err ==> final(self).header() == old(self).header(),
            spec_decode_db_header(old(self).input()) is Ok ==> spec_header_name_is_text(old(self).input()),
    {
        let ghost buf = self.bytes@;
        let ghost db0 = self.db.view();
        self.decode_db_header()?;
        let ghost done: Seq<(Seq<u8>, FieldV)> = Seq::empty();
        let ghost m = self.header();
        assert(insert_all(db0, done) == db0);
        while self.pos < self.bytes.len()
            invariant
                self.wf(),
                self.bytes@ == buf,
                buf == old(self).bytes@,
                self.header() == m,
                spec_header_name_is_text(buf),
                self.decoded() == insert_all(db0, done),
                spec_decode_db_header(buf) matches Ok((meta, p)) && m == Some(meta) && match spec_decode_records(
                    buf,
                    p as int,
                ) {
                    Ok(all) => spec_decode_records(buf, self.pos as int) matches Ok(rest) && all == done + rest,
                    Err(e) => spec_decode_records(buf, self.pos as int) == Err::<Seq<(Seq<u8>, FieldV)>, DecodeFailure>(e),
                },
            decreases buf.len() - self.pos,
        {
            let ghost pos0 = self.pos as int;
            let ghost rest0 = spec_decode_records(buf, pos0);
            proof {
                lemma_decode_record_end(buf, pos0);
            }
            if self.bytes[self.pos] == 0 {
                self.pos = self.pos + 1;
            } else {
                let ghost before = self.decoded();
                self.decode_db_key_field_pair()?;
                proof {
                    if let Ok((kv, next)) = spec_decode_record(buf, pos0) {
                        if let Ok(rest) = spec_decode_records(buf, next as int) {
                            assert(rest0 == Ok::<Seq<(Seq<u8>, FieldV)>, DecodeFailure>(seq![kv] + rest));
                            assert(done.push(kv) + rest =~= done + (seq![kv] + rest));
                        }
                        assert(done.push(kv).drop_last() =~= done);
                        done = done.push(kv);
                    }
                }
            }
        }
        proof {
            if let Ok((meta, p)) = spec_decode_db_header(buf) {
                if let Ok(all) = spec_decode_records(buf, p as int) {
                    assert(done =~= all);
                }
            }
        }
        Ok(())
    }

    /// The decoded map and the header's contents; `InvalidFinishCall` if no header was decoded.
    pub fn finish(self) -> (r: PDBResult<(KeyMap<Field>, DbMeta)>)
        requires
            self.wf(),
        ensures
            self.header() is None ==> (r matches Err(e) && e is InvalidFinishCall),
            self.header() matches Some(h) ==> (r matches Ok((m, meta)) && m.wf() && m.view() == self.decoded()
                && meta@ == h),
    {
        match self.meta {
            Some(meta) => Ok((self.db, meta)),
            None => Err(PeachDbError::InvalidFinishCall),
        }
    }
}

/// Whether eight bytes are one of the header's names.
fn is_metadata_key(key: &[u8]) -> (r: bool)
    requires
        key@.len() == 8,
    ensures
        r == spec_is_metadata_key(key@),
{
    let h = vec![0x48u8, 0x65u8, 0x61u8, 0x64u8, 0x65u8, 0x72u8, 0x2Du8, 0x2Du8];
    let v = vec![0x56u8, 0x65u8, 0x72u8, 0x73u8, 0x69u8, 0x6Fu8, 0x6Eu8, 0x2Du8];
    let c = vec![0x52u8, 0x65u8, 0x63u8, 0x43u8, 0x6Fu8, 0x75u8, 0x6Eu8, 0x74u8];
    let n = vec![0x44u8, 0x42u8, 0x20u8, 0x4Eu8, 0x61u8, 0x6Du8, 0x65u8, 0x2Du8];
    crate::dtypes::bytes_eq(key, h.as_slice()) || crate::dtypes::bytes_eq(key, v.as_slice())
        || crate::dtypes::bytes_eq(key, c.as_slice()) || crate::dtypes::bytes_eq(key, n.as_slice())
}

/// Decodes the record at the start of `bytes` into its key and field (see
/// [`spec_decode_record`]); bytes after the record are not read.
pub fn decode(bytes: &[u8]) -> (r: PDBResult<(Key, Field)>)
    ensures
        match spec_decode_record(bytes@, 0) {
            Ok(((k, f), _)) => r matches Ok((key, field)) && key@ == k && field@ == f,
            Err(d) => r matches Err(e) && e.reports(d),
        },
{
    let mut decoder = DBDecoder::new(bytes);
    decoder.decode_db_key_field_pair()?;
    let db = decoder.db;
    proof {
        db.lemma_wf();
        assert(db.view().dom().contains(db.pairs()[0].0));
    }
    let mut pairs = db.into_pairs();
    if pairs.len() != 1 {
        return Err(PeachDbError::InvalidIndexEntry);
    }
    match pairs.pop() {
        Some((key, field)) => Ok((key, field)),
        None => Err(PeachDbError::InvalidIndexEntry),
    }
}

/// The log bytes of an entry: `0x01`, the key's length (little-endian `u16`), the key, the
/// field's length (little-endian `u32`) and the field's bytes for a set; `0x02`, the key's length
/// and the key for a delete.
pub open spec fn spec_wal_entry_bytes(e: WalEntryV) -> Seq<u8> {
    match e {
        WalEntryV::SetField(k, f) => seq![0x01u8] + spec_u16_to_le_bytes(k.len() as u16) + k
            + spec_u32_to_le_bytes(spec_field_bytes(f).len() as u32) + spec_field_bytes(f),
        WalEntryV::Delete(k) => seq![0x02u8] + spec_u16_to_le_bytes(k.len() as u16) + k,
    }
}

/// The log bytes of a sequence of entries, one after another.
pub open spec fn spec_wal_bytes(es: Seq<WalEntryV>) -> Seq<u8>
    decreases es.len(),
{
    if es.len() == 0 {
        Seq::empty()
    } else {
        spec_wal_bytes(es.drop_last()) + spec_wal_entry_bytes(es.last())
    }
}

/// Builds the bytes of log entries.
pub struct WalEncoder {
    buffer: Vec<u8>,
}

impl WalEncoder {
    /// The bytes encoded so far.
    pub closed spec fn bytes(&self) -> Seq<u8> {
        self.buffer@
    }

    /// An encoder with no bytes.
    pub fn new() -> (e: WalEncoder)
        ensures
            e.bytes() == Seq::<u8>::empty(),
    {
        WalEncoder { buffer: Vec::new() }
    }

    fn write(&mut self, bytes: &[u8])
        ensures
            final(self).bytes() == old(self).bytes() + bytes@,
    {
        extend_bytes(&mut self.buffer, bytes);
    }

    fn encode_set_bytes(&mut self)
        ensures
            final(self).bytes() == old(self).bytes().push(0x01u8),
    {
        self.buffer.push(0x1);
    }

    fn encode_delete_bytes(&mut self)
        ensures
            final(self).bytes() == old(self).bytes().push(0x02u8),
    {
        self.buffer.push(0x2);
    }

    fn encode_key_len(&mut self, key_len: usize)
        ensures
            final(self).bytes() == old(self).bytes() + spec_u16_to_le_bytes(key_len as u16),
    {
        let b = u16_le(#[verifier::truncate] (key_len as u16));
        self.write(b.as_slice());
    }

    fn encode_key_bytes(&mut self, key: &[u8])
        ensures
            final(self).bytes() == old(self).bytes() + key@,
    {
        self.write(key);
    }

    fn encode_key(&mut self, key: &Key)
        ensures
            final(self).bytes() == old(self).bytes() + spec_u16_to_le_bytes(key@.len() as u16) + key@,
    {
        self.encode_key_len(key.len());
        self.encode_key_bytes(key.as_bytes());
    }

    fn encode_field_len(&mut self, field_len: usize)
        ensures
            final(self).bytes() == old(self).bytes() + spec_u32_to_le_bytes(field_len as u32),
    {
        let b = u32_le(#[verifier::truncate] (field_len as u32));
        self.write(b.as_slice());
    }

    fn encode_field_bytes(&mut self, field: &[u8])
        ensures
            final(self).bytes() == old(self).bytes() + field@,
    {
        self.write(field);
    }

    fn encode_field(&mut self, field: &Field)
        ensures
            final(self).bytes() == old(self).bytes() + spec_u32_to_le_bytes(
                spec_field_bytes(field@).len() as u32,
            ) + spec_field_bytes(field@),
    {
        let payload = bytes_from_field(field);
        self.encode_field_len(payload.len());
        self.encode_field_bytes(payload.as_slice());
    }

    fn encode_set_entry(&mut self, key: &Key, field: &Field)
        ensures
            final(self).bytes() == old(self).bytes() + spec_wal_entry_bytes(WalEntryV::SetField(key@, field@)),
    {
        let ghost old_bytes = self.bytes();
        self.encode_set_bytes();
        self.encode_key(key);
        self.encode_field(field);
        assert(self.bytes() =~= old_bytes + spec_wal_entry_bytes(WalEntryV::SetField(key@, field@)));
    }

    fn encode_delete_entry(&mut self, key: &Key)
        ensures
            final(self).bytes() == old(self).bytes() + spec_wal_entry_bytes(WalEntryV::Delete(key@)),
    {
        let ghost old_bytes = self.bytes();
        self.encode_delete_bytes();
        self.encode_key(key);
        assert(self.bytes() =~= old_bytes + spec_wal_entry_bytes(WalEntryV::Delete(key@)));
    }

    /// Appends the bytes of `entry` (see [`spec_wal_entry_bytes`]).
    pub fn encode_wal_entry(&mut self, entry: &WalEntry)
        ensures
            final(self).bytes() == old(self).bytes() + spec_wal_entry_bytes(entry@),
    {
        match entry {
            WalEntry::SetField(key, field) => self.encode_set_entry(key, field),
            WalEntry::Delete(key) => self.encode_delete_entry(key),
        }
    }

    /// The bytes encoded so far.
    pub fn finish(&mut self) -> (b: &[u8])
        ensures
            b@ == old(self).bytes(),
            final(self).bytes() == old(self).bytes(),
    {
        self.buffer.as_slice()
    }

    /// Empties the encoder.
    pub fn reset(&mut self)
        ensures
            final(self).bytes() == Seq::<u8>::empty(),
    {
        self.buffer.clear();
    }
}

/// The position after the log entry at `pos`, by the lengths it holds.
pub open spec fn spec_wal_entry_end(buf: Seq<u8>, pos: int) -> int {
    let kl = spec_u16_from_le_bytes(buf.subrange(pos + 1, pos + 3)) as int;
    if buf[pos] == 0x01u8 {
        pos + 3 + kl + 4 + spec_u32_from_le_bytes(buf.subrange(pos + 3 + kl, pos + 7 + kl)) as int
    } else {
        pos + 3 + kl
    }
}

/// Decoding the log entry at `pos`: the entry and the position after it. Where the input ends
/// first, `Eof`; a first byte other than `0x01` and `0x02` is `UnknownDtype` with that byte; a
/// set's field fails as [`spec_field_from_bytes`] says.
pub open spec fn spec_decode_wal_entry(buf: Seq<u8>, pos: int) -> Result<(WalEntryV, nat), DecodeFailure> {
    if buf.len() < pos + 1 {
        Err(DecodeFailure::Eof)
    } else if buf[pos] != 0x01u8 && buf[pos] != 0x02u8 {
        Err(DecodeFailure::UnknownDtype(buf[pos]))
    } else if buf.len() < pos + 3 {
        Err(DecodeFailure::Eof)
    } else {
        let kl = spec_u16_from_le_bytes(buf.subrange(pos + 1, pos + 3)) as int;
        if buf.len() < pos + 3 + kl {
            Err(DecodeFailure::Eof)
        } else {
            let key = buf.subrange(pos + 3, pos + 3 + kl);
            if buf[pos] == 0x02u8 {
                Ok((WalEntryV::Delete(key), (pos + 3 + kl) as nat))
            } else if buf.len() < pos + 7 + kl {
                Err(DecodeFailure::Eof)
            } else {
                let fl = spec_u32_from_le_bytes(buf.subrange(pos + 3 + kl, pos + 7 + kl)) as int;
                if buf.len() < pos + 7 + kl + fl {
                    Err(DecodeFailure::Eof)
                } else {
                    match spec_field_from_bytes(buf.subrange(pos + 7 + kl, pos + 7 + kl + fl)) {
                        Ok((f, _)) => Ok((WalEntryV::SetField(key, f), (pos + 7 + kl + fl) as nat)),
                        Err(e) => Err(e),
                    }
                }
            }
        }
    }
}

/// Decoding the log entries from `pos` to the end of the input, in order.
pub open spec fn spec_decode_wal_from(buf: Seq<u8>, pos: int) -> Result<Seq<WalEntryV>, DecodeFailure>
    decreases buf.len() - pos,
{
    if pos < 0 || pos >= buf.len() {
        Ok(Seq::empty())
    } else {
        match spec_decode_wal_entry(buf, pos) {
            Ok((e, _)) => if spec_wal_entry_end(buf, pos) <= pos {
                Ok(Seq::empty())
            } else {
                match spec_decode_wal_from(buf, spec_wal_entry_end(buf, pos)) {
                    Ok(rest) => Ok(seq![e] + rest),
                    Err(d) => Err(d),
                }
            },
            Err(d) => Err(d),
        }
    }
}

/// Decoding a whole log file: its entries in order.
pub open spec fn spec_decode_wal(buf: Seq<u8>) -> Result<Seq<WalEntryV>, DecodeFailure> {
    spec_decode_wal_from(buf, 0)
}

/// A decoded log entry ends where its lengths say.
pub proof fn lemma_decode_wal_entry_end(buf: Seq<u8>, pos: int)
    requires
        0 <= pos,
    ensures
        spec_decode_wal_entry(buf, pos) matches Ok((_, next)) ==> next == spec_wal_entry_end(buf, pos)
            && pos + 3 <= next <= buf.len(),
{
}

/// Decodes log-file bytes into entries.
pub struct WalDecoder<'a> {
    bytes: &'a [u8],
    pos: usize,
    wal: Vec<WalEntry>,
}

impl<'a> WalDecoder<'a> {
    /// The bytes being decoded.
    pub closed spec fn input(&self) -> Seq<u8> {
        self.bytes@
    }

    /// The position of the next read.
    pub closed spec fn position(&self) -> nat {
        self.pos as nat
    }

    /// The entries decoded so far, in order.
    pub closed spec fn decoded(&self) -> Seq<WalEntryV> {
        entries_view(self.wal@)
    }

    /// Whether the decoder's position lies within its input.
    pub closed spec fn wf(&self) -> bool {
        self.pos <= self.bytes@.len() && self.bytes@.len() <= usize::MAX
    }

    /// A decoder of `bytes` at their start, with nothing decoded.
    pub fn new(bytes: &'a [u8]) -> (d: WalDecoder<'a>)
        ensures
            d.wf(),
            d.input() == bytes@,
            d.position() == 0,
            d.decoded() == Seq::<WalEntryV>::empty(),
    {
        let _n = bytes.len();
        let d = WalDecoder { bytes, pos: 0, wal: Vec::new() };
        assert(d.decoded() =~= Seq::<WalEntryV>::empty());
        d
    }

    fn wal_push(&mut self, entry: WalEntry)
        ensures
            final(self).decoded() == old(self).decoded().push(entry@),
            final(self).bytes == old(self).bytes,
            final(self).pos == old(self).pos,
    {
        let ghost e = entry@;
        self.wal.push(entry);
        assert(self.decoded() =~= old(self).decoded().push(e));
    }

    fn read_key(&mut self) -> (r: PDBResult<Key>)
        requires
            old(self).wf(),
        ensures
            final(self).wf(),
            final(self).bytes == old(self).bytes,
            final(self).wal == old(self).wal,
            old(self).pos + 2 > old(self).bytes@.len() ==> (r matches Err(e) && spec_eof_error(e)),
            old(self).pos + 2 <= old(self).bytes@.len() ==> {
                let kl = spec_u16_from_le_bytes(old(self).bytes@.subrange(old(self).pos as int, old(self).pos + 2)) as int;
                &&& old(self).pos + 2 + kl > old(self).bytes@.len() ==> (r matches Err(e) && spec_eof_error(e))
                &&& old(self).pos + 2 + kl <= old(self).bytes@.len() ==> (r matches Ok(k) && k@ == old(self).bytes@.subrange(
                    old(self).pos + 2,
                    old(self).pos + 2 + kl,
                ) && final(self).pos == old(self).pos + 2 + kl)
            },
    {
        let b = read_exact(self.bytes, self.pos, 2)?;
        let key_len = read_u16_le(b, 0) as usize;
        assert(b@.subrange(0, 2) =~= b@);
        self.pos = self.pos + 2;
        let key_buf = read_exact(self.bytes, self.pos, key_len)?;
        self.pos = self.pos + key_len;
        Ok(Key::from(copy_bytes(key_buf)))
    }

    fn decode_set_entry(&mut self) -> (r: PDBResult<()>)
        requires
            old(self).wf(),
            1 <= old(self).pos,
            old(self).bytes@[old(self).pos - 1] == 0x01u8,
        ensures
            final(self).wf(),
            final(self).bytes == old(self).bytes,
            match spec_decode_wal_entry(old(self).bytes@, old(self).pos - 1) {
                Ok((e, next)) => r is Ok && final(self).pos == next && final(self).decoded() == old(self).decoded().push(e),
                Err(d) => r matches Err(err) && err.reports(d),
            },
    {
        proof {
            crate::endian::lemma_endian_roundtrips();
        }
        let key = self.read_key()?;
        let b = read_exact(self.bytes, self.pos, 4)?;
        let field_len = read_u32_le(b, 0) as usize;
        assert(b@.subrange(0, 4) =~= b@);
        self.pos = self.pos + 4;
        let feld_buf = read_exact(self.bytes, self.pos, field_len)?;
        self.pos = self.pos + field_len;
        let (field, _) = field_from_bytes(feld_buf)?;
        self.wal_push(WalEntry::SetField(key, field));
        Ok(())
    }

    fn decode_delete_entry(&mut self) -> (r: PDBResult<()>)
        requires
            old(self).wf(),
            1 <= old(self).pos,
            old(self).bytes@[old(self).pos - 1] == 0x02u8,
        ensures
            final(self).wf(),
            final(self).bytes == old(self).bytes,
            match spec_decode_wal_entry(old(self).bytes@, old(self).pos - 1) {
                Ok((e, next)) => r is Ok && final(self).pos == next && final(self).decoded() == old(self).decoded().push(e),
                Err(d) => r matches Err(err) && err.reports(d),
            },
    {
        proof {
            crate::endian::lemma_endian_roundtrips();
        }
        let key = self.read_key()?;
        self.wal_push(WalEntry::Delete(key));
        Ok(())
    }

    /// Decodes the log entry at the current position and appends it to the decoded entries
    /// (see [`spec_decode_wal_entry`]).
    pub fn decode_wal_entry(&mut self) -> (r: PDBResult<()>)
        requires
            old(self).wf(),
        ensures
            final(self).wf(),
            final(self).input() == old(self).input(),
            match spec_decode_wal_entry(old(self).input(), old(self).position() as int) {
                Ok((e, next)) => r is Ok && final(self).position() == next && final(self).decoded()
                    == old(self).decoded().push(e),
                Err(d) => r matches Err(err) && err.reports(d),
            },
    {
        let tag = read_exact(self.bytes, self.pos, 1)?[0];
        self.pos = self.pos + 1;
        match tag {
            0x1 => self.decode_set_entry(),
            0x2 => self.decode_delete_entry(),
            b => Err(PeachDbError::UnknownDtype { byte: b }),
        }
    }

    /// Decodes every log entry from the current position to the end (see
    /// [`spec_decode_wal_from`]).
    pub fn decode_wal_entries(&mut self) -> (r: PDBResult<()>)
        requires
            old(self).wf(),
        ensures
            final(self).wf(),
            final(self).input() == old(self).input(),
            match spec_decode_wal_from(old(self).input(), old(self).position() as int) {
                Ok(es) => r is Ok && final(self).decoded() == old(self).decoded() + es,
                Err(d) => r matches Err(err) && err.reports(d),
            },
    {
        let ghost buf = self.bytes@;
        let ghost start = self.pos as int;
        let ghost d0 = self.decoded();
        let ghost done: Seq<WalEntryV> = Seq::empty();
        assert(d0 + done =~= d0);
        while self.pos < self.bytes.len()
            invariant
                self.wf(),
                self.bytes@ == buf,
                buf == old(self).bytes@,
                start == old(self).pos,
                d0 == old(self).decoded(),
                self.decoded() == d0 + done,
                match spec_decode_wal_from(buf, start) {
                    Ok(all) => spec_decode_wal_from(buf, self.pos as int) matches Ok(rest) && all == done + rest,
                    Err(e) => spec_decode_wal_from(buf, self.pos as int) == Err::<Seq<WalEntryV>, DecodeFailure>(e),
                },
            decreases buf.len() - self.pos,
        {
            let ghost pos0 = self.pos as int;
            proof {
                lemma_decode_wal_entry_end(buf, pos0);
            }
            self.decode_wal_entry()?;
            proof {
                if let Ok((e, next)) = spec_decode_wal_entry(buf, pos0) {
                    if let Ok(rest) = spec_decode_wal_from(buf, next as int) {
                        assert(done.push(e) + rest =~= done + (seq![e] + rest));
                    }
                    assert(d0 + done.push(e) =~= (d0 + done).push(e));
                    done = done.push(e);
                }
            }
        }
        proof {
            if let Ok(all) = spec_decode_wal_from(buf, start) {
                assert(done =~= all);
            }
        }
        Ok(())
    }

    /// The decoded entries, in order.
    pub fn finish(self) -> (r: PDBResult<Vec<WalEntry>>)
        ensures
            r matches Ok(es) && entries_view(es@) == self.decoded(),
    {
        Ok(self.wal)
    }
}

/// Decoding the index entry at `pos`: its key, its entry (the offset, the key's stored length
/// and the field's length) and the position after it. Where the input ends first, `Eof`.
pub open spec fn spec_decode_index_entry(buf: Seq<u8>, pos: int) -> Result<((Seq<u8>, IndexEntry), nat), DecodeFailure> {
    if buf.len() < pos + 2 {
        Err(DecodeFailure::Eof)
    } else {
        let kl = spec_u16_from_le_bytes(buf.subrange(pos, pos + 2));
        let p = pos + 2 + kl;
        if buf.len() < p + 12 {
            Err(DecodeFailure::Eof)
        } else {
            Ok(
                (
                    (
                        buf.subrange(pos + 2, p),
                        IndexEntry {
                            offset: spec_u64_from_le_bytes(buf.subrange(p + 4, p + 12)),
                            key_len: kl,
                            field_len: spec_u32_from_le_bytes(buf.subrange(p, p + 4)),
                        },
                    ),
                    (p + 12) as nat,
                ),
            )
        }
    }
}

/// Decoding the index entries from `pos` to the end of the input, in order.
pub open spec fn spec_decode_index_from(buf: Seq<u8>, pos: int) -> Result<Seq<(Seq<u8>, IndexEntry)>, DecodeFailure>
    decreases buf.len() - pos,
{
    if pos < 0 || pos >= buf.len() {
        Ok(Seq::empty())
    } else {
        match spec_decode_index_entry(buf, pos) {
            Ok((kv, next)) => if next <= pos {
                Ok(Seq::empty())
            } else {
                match spec_decode_index_from(buf, next as int) {
                    Ok(rest) => Ok(seq![kv] + rest),
                    Err(d) => Err(d),
                }
            },
            Err(d) => Err(d),
        }
    }
}

/// Decodes index-file bytes into a map of keys to index entries.
pub struct IndexDecoder<'a> {
    bytes: &'a [u8],
    pos: usize,
    index: KeyMap<IndexEntry>,
    last_index_key: Vec<u8>,
    last_idx: u64,
    last_key_len: usize,
    last_field_len: u32,
}

impl<'a> IndexDecoder<'a> {
    /// The bytes being decoded.
    pub closed spec fn input(&self) -> Seq<u8> {
        self.bytes@
    }

    /// The position of the next read.
    pub closed spec fn position(&self) -> nat {
        self.pos as nat
    }

    /// The entries decoded so far, as a map.
    pub closed spec fn decoded(&self) -> Map<Seq<u8>, IndexEntry> {
        self.index.view()
    }

    /// Whether the decoder is consistent.
    pub closed spec fn wf(&self) -> bool {
        self.pos <= self.bytes@.len() && self.bytes@.len() <= usize::MAX && self.index.wf()
    }

    /// A decoder of `bytes` at their start, with nothing decoded.
    pub fn new(bytes: &'a [u8]) -> (d: IndexDecoder<'a>)
        ensures
            d.wf(),
            d.input() == bytes@,
            d.position() == 0,
            d.decoded() == Map::<Seq<u8>, IndexEntry>::empty(),
    {
        let _n = bytes.len();
        IndexDecoder {
            bytes,
            pos: 0,
            index: KeyMap::new(),
            last_index_key: Vec::new(),
            last_idx: 0,
            last_key_len: 0,
            last_field_len: 0,
        }
    }

    fn read_index(&mut self) -> (r: PDBResult<()>)
        requires
            old(self).wf(),
        ensures
            final(self).wf(),
            final(self).bytes == old(self).bytes,
            final(self).index == old(self).index,
            final(self).last_index_key == old(self).last_index_key,
            final(self).last_key_len == old(self).last_key_len,
            final(self).last_field_len == old(self).last_field_len,
            old(self).pos + 8 > old(self).bytes@.len() ==> (r matches Err(e) && spec_eof_error(e)),
            old(self).pos + 8 <= old(self).bytes@.len() ==> r is Ok && final(self).pos == old(self).pos + 8
                && final(self).last_idx == spec_u64_from_le_bytes(
                old(self).bytes@.subrange(old(self).pos as int, old(self).pos + 8),
            ),
    {
        let b = read_exact(self.bytes, self.pos, 8)?;
        self.last_idx = read_u64_le(b, 0);
        assert(b@.subrange(0, 8) =~= b@);
        self.pos = self.pos + 8;
        Ok(())
    }

    fn read_key_len(&mut self) -> (r: PDBResult<()>)
        requires
            old(self).wf(),
        ensures
            final(self).wf(),
            final(self).bytes == old(self).bytes,
            final(self).index == old(self).index,
            old(self).pos + 2 > old(self).bytes@.len() ==> (r matches Err(e) && spec_eof_error(e)),
            old(self).pos + 2 <= old(self).bytes@.len() ==> r is Ok && final(self).pos == old(self).pos + 2
                && final(self).last_key_len == spec_u16_from_le_bytes(
                old(self).bytes@.subrange(old(self).pos as int, old(self).pos + 2),
            ),
    {
        let b = read_exact(self.bytes, self.pos, 2)?;
        self.last_key_len = read_u16_le(b, 0) as usize;
        assert(b@.subrange(0, 2) =~= b@);
        self.pos = self.pos + 2;
        Ok(())
    }

    fn read_key(&mut self) -> (r: PDBResult<()>)
        requires
            old(self).wf(),
        ensures
            final(self).wf(),
            final(self).bytes == old(self).bytes,
            final(self).index == old(self).index,
            final(self).last_key_len == old(self).last_key_len,
            old(self).pos + old(self).last_key_len > old(self).bytes@.len() ==> (r matches Err(e)
                && spec_eof_error(e)),
            old(self).pos + old(self).last_key_len <= old(self).bytes@.len() ==> r is Ok && final(self).pos
                == old(self).pos + old(self).last_key_len && final(self).last_index_key@
                == old(self).bytes@.subrange(old(self).pos as int, old(self).pos + old(self).last_key_len),
    {
        let key = read_exact(self.bytes, self.pos, self.last_key_len)?;
        self.last_index_key = copy_bytes(key);
        self.pos = self.pos + self.last_key_len;
        Ok(())
    }

    fn read_field_len(&mut self) -> (r: PDBResult<()>)
        requires
            old(self).wf(),
        ensures
            final(self).wf(),
            final(self).bytes == old(self).bytes,
            final(self).index == old(self).index,
            final(self).last_key_len == old(self).last_key_len,
            final(self).last_index_key == old(self).last_index_key,
            old(self).pos + 4 > old(self).bytes@.len() ==> (r matches Err(e) && spec_eof_error(e)),
            old(self).pos + 4 <= old(self).bytes@.len() ==> r is Ok && final(self).pos == old(self).pos + 4
                && final(self).last_field_len == spec_u32_from_le_bytes(
                old(self).bytes@.subrange(old(self).pos as int, old(self).pos + 4),
            ),
    {
        let b = read_exact(self.bytes, self.pos, 4)?;
        self.last_field_len = read_u32_le(b, 0);
        assert(b@.subrange(0, 4) =~= b@);
        self.pos = self.pos + 4;
        Ok(())
    }

    fn decode_index_entry(&mut self) -> (r: PDBResult<()>)
        requires
            old(self).wf(),
        ensures
            final(self).wf(),
            final(self).bytes == old(self).bytes,
            match spec_decode_index_entry(old(self).bytes@, old(self).pos as int) {
                Ok(((k, e), next)) => r is Ok && final(self).pos == next && final(self).decoded()
                    == old(self).decoded().insert(k, e),
                Err(d) => r matches Err(err) && err.reports(d),
            },
    {
        proof {
            crate::endian::lemma_endian_roundtrips();
        }
        self.read_key_len()?;
        self.read_key()?;
        self.read_field_len()?;
        self.read_index()?;
        let entry = IndexEntry {
            offset: self.last_idx,
            key_len: #[verifier::truncate] (self.last_key_len as u16),
            field_len: self.last_field_len,
        };
        self.index.insert(Key::from(copy_bytes(self.last_index_key.as_slice())), entry);
        Ok(())
    }

    /// Decodes every index entry from the current position to the end (see
    /// [`spec_decode_index_from`]), mapping each key to its entry in order.
    pub fn decode_index_file(&mut self) -> (r: PDBResult<()>)
        requires
            old(self).wf(),
        ensures
            final(self).wf(),
            final(self).input() == old(self).input(),
            match spec_decode_index_from(old(self).input(), old(self).position() as int) {
                Ok(pairs) => r is Ok && final(self).decoded() == insert_all(old(self).decoded(), pairs),
                Err(d) => r matches Err(err) && err.reports(d),
            },
    {
        let ghost buf = self.bytes@;
        let ghost start = self.pos as int;
        let ghost m0 = self.decoded();
        let ghost done: Seq<(Seq<u8>, IndexEntry)> = Seq::empty();
        while self.pos < self.bytes.len()
            invariant
                self.wf(),
                self.bytes@ == buf,
                buf == old(self).bytes@,
                start == old(self).pos,
                m0 == old(self).decoded(),
                self.decoded() == insert_all(m0, done),
                match spec_decode_index_from(buf, start) {
                    Ok(all) => spec_decode_index_from(buf, self.pos as int) matches Ok(rest) && all == done + rest,
                    Err(e) => spec_decode_index_from(buf, self.pos as int) == Err::<Seq<(Seq<u8>, IndexEntry)>, DecodeFailure>(e),
                },
            decreases buf.len() - self.pos,
        {
            let ghost pos0 = self.pos as int;
            self.decode_index_entry()?;
            proof {
                if let Ok((kv, next)) = spec_decode_index_entry(buf, pos0) {
                    if let Ok(rest) = spec_decode_index_from(buf, next as int) {
                        assert(done.push(kv) + rest =~= done + (seq![kv] + rest));
                    }
                    assert(done.push(kv).drop_last() =~= done);
                    done = done.push(kv);
                }
            }
        }
        proof {
            if let Ok(all) = spec_decode_index_from(buf, start) {
                assert(done =~= all);
            }
        }
        Ok(())
    }

    /// The decoded map.
    pub fn finish(self) -> (r: PDBResult<KeyMap<IndexEntry>>)
        requires
            self.wf(),
        ensures
            r matches Ok(m) && m.wf() && m.view() == self.decoded(),
    {
        Ok(self.index)
    }
}

/// Reading the header while building an index from the data file: its names and name are
/// passed over unread, its fixed-size numbers read; the input must reach past the record count
/// (else `Eof`). The records start after the 114-byte header.
pub open spec fn spec_index_from_db_header(buf: Seq<u8>) -> Result<nat, DecodeFailure> {
    if buf.len() < 42 {
        Err(DecodeFailure::Eof)
    } else {
        Ok(114)
    }
}

/// Building index entries from the data file's records from `pos` on: for each live record its
/// key and an entry with the record's offset and the lengths it stores; the zero bytes of
/// deleted records are passed over one by one. The checksum and the field are passed over unread. A record with an empty key
/// is `InvalidIndexEntry`; where the input ends before a length or the key, `Eof`.
pub open spec fn spec_index_from_db_records(buf: Seq<u8>, pos: int) -> Result<Seq<(Seq<u8>, IndexEntry)>, DecodeFailure>
    decreases buf.len() - pos,
{
    if pos < 0 || pos >= buf.len() {
        Ok(Seq::empty())
    } else if spec_is_tombstone(buf, pos) {
        spec_index_from_db_records(buf, pos + 1)
    } else if buf.len() < pos + 4 {
        Err(DecodeFailure::Eof)
    } else if buf.subrange(pos, pos + 4) != spec_record_magic() {
        Err(DecodeFailure::InvalidMagicBytes)
    } else if buf.len() < pos + 10 {
        Err(DecodeFailure::Eof)
    } else {
        let kl = spec_record_key_len(buf, pos);
        if kl == 0 {
            Err(DecodeFailure::InvalidIndexEntry)
        } else if buf.len() < pos + 14 + kl {
            Err(DecodeFailure::Eof)
        } else {
            let kv = (
                buf.subrange(pos + 14, pos + 14 + kl),
                IndexEntry {
                    offset: #[verifier::truncate] (pos as u64),
                    key_len: kl as u16,
                    field_len: spec_record_field_len(buf, pos) as u32,
                },
            );
            if spec_record_end(buf, pos) >= buf.len() {
                Ok(seq![kv])
            } else {
                match spec_index_from_db_records(buf, spec_record_end(buf, pos)) {
                    Ok(rest) => Ok(seq![kv] + rest),
                    Err(d) => Err(d),
                }
            }
        }
    }
}

/// Building the index from a whole data file.
pub open spec fn spec_decode_index_from_db(buf: Seq<u8>) -> Result<Seq<(Seq<u8>, IndexEntry)>, DecodeFailure> {
    match spec_index_from_db_header(buf) {
        Ok(p) => spec_index_from_db_records(buf, p as int),
        Err(d) => Err(d),
    }
}

/// Builds the index (key to record offset and lengths) from the data file's bytes.
pub struct IndexFromDBDecoder<'a> {
    bytes: &'a [u8],
    pos: usize,
    index: KeyMap<IndexEntry>,
    last_key_len: u16,
    last_field_len: u32,
    last_key: Vec<u8>,
    last_index: u64,
}

impl<'a> IndexFromDBDecoder<'a> {
    /// The bytes being decoded.
    pub closed spec fn input(&self) -> Seq<u8> {
        self.bytes@
    }

    /// The entries built so far, as a map.
    pub closed spec fn decoded(&self) -> Map<Seq<u8>, IndexEntry> {
        self.index.view()
    }

    /// Whether the decoder is consistent.
    pub closed spec fn wf(&self) -> bool {
        self.pos <= self.bytes@.len() && self.bytes@.len() <= usize::MAX && self.index.wf()
    }

    /// A decoder of `bytes` at their start, with nothing built.
    pub fn new(bytes: &'a [u8]) -> (d: IndexFromDBDecoder<'a>)
        ensures
            d.wf(),
            d.input() == bytes@,
            d.decoded() == Map::<Seq<u8>, IndexEntry>::empty(),
    {
        let _n = bytes.len();
        IndexFromDBDecoder {
            bytes,
            pos: 0,
            index: KeyMap::new(),
            last_key: Vec::new(),
            last_field_len: 0,
            last_key_len: 0,
            last_index: 0,
        }
    }

    /// Moves the position `n` bytes on, or to the end of the input if fewer remain.
    fn advance(&mut self, n: usize)
        requires
            old(self).wf(),
        ensures
            final(self).wf(),
            final(self).bytes == old(self).bytes,
            final(self).index == old(self).index,
            final(self).last_key_len == old(self).last_key_len,
            final(self).last_field_len == old(self).last_field_len,
            final(self).last_key == old(self).last_key,
            final(self).last_index == old(self).last_index,
            old(self).pos + n <= old(self).bytes@.len() ==> final(self).pos == old(self).pos + n,
            old(self).pos + n > old(self).bytes@.len() ==> final(self).pos == old(self).bytes@.len(),
    {
        if self.bytes.len() - self.pos < n {
            self.pos = self.bytes.len();
        } else {
            self.pos = self.pos + n;
        }
    }

    fn read_magic_number(&mut self) -> (r: PDBResult<()>)
        requires
            old(self).wf(),
        ensures
            final(self).wf(),
            final(self).bytes == old(self).bytes,
            final(self).index == old(self).index,
            final(self).last_index == old(self).last_index,
            old(self).pos + 4 > old(self).bytes@.len() ==> (r matches Err(e) && spec_eof_error(e)),
            old(self).pos + 4 <= old(self).bytes@.len() ==> {
                &&& final(self).pos == old(self).pos + 4
                &&& r is Ok <==> old(self).bytes@.subrange(old(self).pos as int, old(self).pos + 4) == spec_record_magic()
                &&& r matches Err(e) ==> e is InvalidMagicBytes
            },
    {
        let rec_magic_number = read_exact(self.bytes, self.pos, 4)?;
        self.pos = self.pos + 4;
        if !(rec_magic_number[0] == 0x52u8 && rec_magic_number[1] == 0x45u8 && rec_magic_number[2] == 0x43u8
            && rec_magic_number[3] == 0x01u8) {
            assert(rec_magic_number@ != spec_record_magic()) by {
                if rec_magic_number@ == spec_record_magic() {
                    assert(rec_magic_number@[0] == spec_record_magic()[0]);
                    assert(rec_magic_number@[1] == spec_record_magic()[1]);
                    assert(rec_magic_number@[2] == spec_record_magic()[2]);
                    assert(rec_magic_number@[3] == spec_record_magic()[3]);
                }
            }
            return Err(PeachDbError::InvalidMagicBytes);
        }
        assert(rec_magic_number@ =~= spec_record_magic());
        Ok(())
    }

    fn read_key_len(&mut self) -> (r: PDBResult<()>)
        requires
            old(self).wf(),
        ensures
            final(self).wf(),
            final(self).bytes == old(self).bytes,
            final(self).index == old(self).index,
            final(self).last_index == old(self).last_index,
            old(self).pos + 2 > old(self).bytes@.len() ==> (r matches Err(e) && spec_eof_error(e)),
            old(self).pos + 2 <= old(self).bytes@.len() ==> r is Ok && final(self).pos == old(self).pos + 2
                && final(self).last_key_len == spec_u16_from_le_bytes(
                old(self).bytes@.subrange(old(self).pos as int, old(self).pos + 2),
            ),
    {
        let b = read_exact(self.bytes, self.pos, 2)?;
        self.last_key_len = read_u16_le(b, 0);
        assert(b@.subrange(0, 2) =~= b@);
        self.pos = self.pos + 2;
        Ok(())
    }

    fn read_field_len(&mut self) -> (r: PDBResult<()>)
        requires
            old(self).wf(),
        ensures
            final(self).wf(),
            final(self).bytes == old(self).bytes,
            final(self).index == old(self).index,
            final(self).last_index == old(self).last_index,
            final(self).last_key_len == old(self).last_key_len,
            old(self).pos + 4 > old(self).bytes@.len() ==> (r matches Err(e) && spec_eof_error(e)),
            old(self).pos + 4 <= old(self).bytes@.len() ==> r is Ok && final(self).pos == old(self).pos + 4
                && final(self).last_field_len == spec_u32_from_le_bytes(
                old(self).bytes@.subrange(old(self).pos as int, old(self).pos + 4),
            ),
    {
        let b = read_exact(self.bytes, self.pos, 4)?;
        self.last_field_len = read_u32_le(b, 0);
        assert(b@.subrange(0, 4) =~= b@);
        self.pos = self.pos + 4;
        Ok(())
    }

    fn skip_crc(&mut self)
        requires
            old(self).wf(),
        ensures
            final(self).wf(),
            final(self).bytes == old(self).bytes,
            final(self).index == old(self).index,
            final(self).last_key_len == old(self).last_key_len,
            final(self).last_field_len == old(self).last_field_len,
            final(self).last_index == old(self).last_index,
            old(self).pos + 4 <= old(self).bytes@.len() ==> final(self).pos == old(self).pos + 4,
            old(self).pos + 4 > old(self).bytes@.len() ==> final(self).pos == old(self).bytes@.len(),
    {
        self.advance(4);
    }

    fn read_key(&mut self) -> (r: PDBResult<()>)
        requires
            old(self).wf(),
        ensures
            final(self).wf(),
            final(self).bytes == old(self).bytes,
            final(self).index == old(self).index,
            final(self).last_key_len == old(self).last_key_len,
            final(self).last_field_len == old(self).last_field_len,
            final(self).last_index == old(self).last_index,
            old(self).pos + old(self).last_key_len > old(self).bytes@.len() ==> (r matches Err(e)
                && spec_eof_error(e)),
            old(self).pos + old(self).last_key_len <= old(self).bytes@.len() ==> r is Ok && final(self).pos
                == old(self).pos + old(self).last_key_len && final(self).last_key@ == old(self).bytes@.subrange(
                old(self).pos as int,
                old(self).pos + old(self).last_key_len,
            ),
    {
        let n = self.last_key_len as usize;
        let key_bytes = read_exact(self.bytes, self.pos, n)?;
        self.last_key = copy_bytes(key_bytes);
        self.pos = self.pos + n;
        Ok(())
    }

    fn skip_field(&mut self)
        requires
            old(self).wf(),
        ensures
            final(self).wf(),
            final(self).bytes == old(self).bytes,
            final(self).index == old(self).index,
            final(self).last_key_len == old(self).last_key_len,
            final(self).last_field_len == old(self).last_field_len,
            final(self).last_key == old(self).last_key,
            final(self).last_index == old(self).last_index,
            old(self).pos + old(self).last_field_len <= old(self).bytes@.len() ==> final(self).pos == old(self).pos
                + old(self).last_field_len,
            old(self).pos + old(self).last_field_len > old(self).bytes@.len() ==> final(self).pos == old(self).bytes@.len(),
    {
        let n = self.last_field_len as usize;
        self.advance(n);
    }

    fn skip_metadata_key(&mut self)
        requires
            old(self).wf(),
        ensures
            final(self).wf(),
            final(self).bytes == old(self).bytes,
            final(self).index == old(self).index,
            old(self).pos + 8 <= old(self).bytes@.len() ==> final(self).pos == old(self).pos + 8,
            old(self).pos + 8 > old(self).bytes@.len() ==> final(self).pos == old(self).bytes@.len(),
    {
        self.advance(8);
    }

    fn decode_db_header(&mut self) -> (r: PDBResult<()>)
        requires
            old(self).wf(),
        ensures
            final(self).wf(),
            final(self).bytes == old(self).bytes,
            final(self).index == old(self).index,
            match spec_index_from_db_header(old(self).bytes@) {
                Ok(p) => r is Ok && (p <= old(self).bytes@.len() ==> final(self).pos == p) && (p
                    > old(self).bytes@.len() ==> final(self).pos == old(self).bytes@.len()),
                Err(d) => r matches Err(e) && e.reports(d),
            },
    {
        self.pos = 0;
        self.skip_metadata_key();
        let _header = read_exact(self.bytes, self.pos, 8)?;
        self.pos = self.pos + 8;
        self.skip_metadata_key();
        let _version = read_exact(self.bytes, self.pos, 1)?;
        self.pos = self.pos + 1;
        let _version_decimal = read_exact(self.bytes, self.pos, 1)?;
        self.pos = self.pos + 1;
        self.skip_metadata_key();
        let _record_count = read_exact(self.bytes, self.pos, 8)?;
        self.pos = self.pos + 8;
        self.skip_metadata_key();
        self.advance(64);
        Ok(())
    }

    fn set_last_index(&mut self)
        ensures
            final(self).last_index == old(self).pos as u64,
            final(self).pos == old(self).pos,
            final(self).bytes == old(self).bytes,
            final(self).index == old(self).index,
    {
        self.last_index = self.pos as u64;
    }

    fn index_push(&mut self) -> (r: PDBResult<()>)
        requires
            old(self).wf(),
        ensures
            final(self).wf(),
            final(self).bytes == old(self).bytes,
            final(self).pos == old(self).pos,
            old(self).last_key@.len() == 0 ==> (r matches Err(e) && e is InvalidIndexEntry),
            old(self).last_key@.len() != 0 ==> r is Ok && final(self).decoded() == old(self).decoded().insert(
                old(self).last_key@,
                IndexEntry {
                    offset: old(self).last_index,
                    key_len: old(self).last_key_len,
                    field_len: old(self).last_field_len,
                },
            ),
    {
        if self.last_key.len() == 0 {
            return Err(PeachDbError::InvalidIndexEntry);
        }
        let entry = IndexEntry {
            offset: self.last_index,
            key_len: self.last_key_len,
            field_len: self.last_field_len,
        };
        self.index.insert(Key::from(copy_bytes(self.last_key.as_slice())), entry);
        Ok(())
    }

    /// Builds the index from the whole data file (see [`spec_decode_index_from_db`]), mapping
    /// each live record's key to its entry in order.
    pub fn decode_index_from_file(&mut self) -> (r: PDBResult<()>)
        requires
            old(self).wf(),
        ensures
            final(self).wf(),
            final(self).input() == old(self).input(),
            match spec_decode_index_from_db(old(self).input()) {
                Ok(pairs) => r is Ok && final(self).decoded() == insert_all(old(self).decoded(), pairs),
                Err(d) => r matches Err(e) && e.reports(d),
            },
    {
        proof {
            crate::endian::lemma_endian_roundtrips();
        }
        let ghost buf = self.bytes@;
        let ghost m0 = self.decoded();
        self.decode_db_header()?;
        let ghost done: Seq<(Seq<u8>, IndexEntry)> = Seq::empty();
        while self.pos < self.bytes.len()
            invariant
                self.wf(),
                self.bytes@ == buf,
                buf == old(self).bytes@,
                m0 == old(self).decoded(),
                self.decoded() == insert_all(m0, done),
                match spec_decode_index_from_db(buf) {
                    Ok(all) => spec_index_from_db_records(buf, self.pos as int) matches Ok(rest) && all == done
                        + rest,
                    Err(e) => spec_index_from_db_records(buf, self.pos as int) == Err::<Seq<(Seq<u8>, IndexEntry)>, DecodeFailure>(e),
                },
            decreases buf.len() - self.pos,
        {
            let ghost pos0 = self.pos as int;
            if self.bytes[self.pos] == 0 {
                self.advance(1);
            } else {
                self.set_last_index();
                self.read_magic_number()?;
                self.read_key_len()?;
                self.read_field_len()?;
                self.skip_crc();
                self.read_key()?;
                self.skip_field();
                self.index_push()?;
                proof {
                    let kv = (
                        buf.subrange(pos0 + 14, pos0 + 14 + spec_record_key_len(buf, pos0)),
                        IndexEntry {
                            offset: pos0 as u64,
                            key_len: spec_record_key_len(buf, pos0) as u16,
                            field_len: spec_record_field_len(buf, pos0) as u32,
                        },
                    );
                    if spec_record_end(buf, pos0) >= buf.len() {
                        assert(done.push(kv) =~= done + seq![kv]);
                    } else if let Ok(rest) = spec_index_from_db_records(buf, spec_record_end(buf, pos0)) {
                        assert(done.push(kv) + rest =~= done + (seq![kv] + rest));
                    }
                    assert(done.push(kv).drop_last() =~= done);
                    done = done.push(kv);
                }
            }
        }
        proof {
            if let Ok(all) = spec_decode_index_from_db(buf) {
                assert(done =~= all);
            }
        }
        Ok(())
    }

    /// The built map.
    pub fn finish(self) -> (r: PDBResult<KeyMap<IndexEntry>>)
        requires
            self.wf(),
        ensures
            r matches Ok(m) && m.wf() && m.view() == self.decoded(),
    {
        Ok(self.index)
    }
}

} // verus!
