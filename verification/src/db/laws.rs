//! What the file formats promise: what is written reads back.

use vstd::prelude::*;
use vstd::bytes::{
    spec_u16_from_le_bytes, spec_u16_to_le_bytes, spec_u32_from_le_bytes, spec_u32_to_le_bytes,
    spec_u64_from_le_bytes, spec_u64_to_le_bytes,
};
use crate::db::codec::{
    spec_crc_input, spec_db_header_bytes, spec_decode_db_file, spec_decode_db_header, spec_decode_record,
    spec_decode_records, spec_is_tombstone, spec_record_bytes, spec_record_end, spec_record_magic,
    spec_records_bytes, spec_zeros, spec_db_name_bytes, spec_trim_zeros, utf8_lossy, spec_db_header_key,
    spec_db_version_key, spec_db_record_count_key, spec_db_name_key, spec_is_metadata_key,
    spec_record_key_len, spec_record_field_len, crc32_iso_hdlc, spec_tombstone_bytes,
};
use crate::db::DbMetaV;
use crate::db::db::IndexEntry;
use crate::db::wal::WalEntryV;
use crate::db::codec::{
    spec_wal_entry_bytes, spec_wal_bytes, spec_decode_wal_entry, spec_decode_wal_from, spec_decode_wal,
    spec_wal_entry_end, spec_index_entry_bytes, spec_index_bytes, spec_decode_index_entry,
    spec_decode_index_from,
};
use crate::dtypes::{field_encodable, lemma_field_roundtrip, spec_field_bytes, FieldV};
use crate::error::DecodeFailure;
use vstd::utf8::encode_utf8;

verus! {

/// Whether a key and a field can be written as a record that reads back: the key's length fits
/// a `u16`, the field is encodable and its bytes' count fits a `u32`.
pub open spec fn record_encodable(key: Seq<u8>, field: FieldV) -> bool {
    &&& key.len() <= u16::MAX
    &&& field_encodable(field)
    &&& spec_field_bytes(field).len() <= u32::MAX
}

/// A record reads back as its key and field, wherever it stands and whatever follows it.
pub proof fn lemma_record_roundtrip(prefix: Seq<u8>, key: Seq<u8>, field: FieldV, rest: Seq<u8>)
    requires
        record_encodable(key, field),
    ensures
        spec_decode_record(prefix + spec_record_bytes(key, field) + rest, prefix.len() as int) == Ok::<
            ((Seq<u8>, FieldV), nat),
            DecodeFailure,
        >(((key, field), prefix.len() + spec_record_bytes(key, field).len())),
        spec_record_end(prefix + spec_record_bytes(key, field) + rest, prefix.len() as int) == prefix.len()
            + spec_record_bytes(key, field).len(),
        !spec_is_tombstone(prefix + spec_record_bytes(key, field) + rest, prefix.len() as int),
        spec_record_bytes(key, field).len() >= 14,
{
    crate::endian::lemma_endian_roundtrips();
    lemma_field_roundtrip(field);
    let payload = spec_field_bytes(field);
    let kl = key.len() as u16;
    let fl = payload.len() as u32;
    let crc = crc32_iso_hdlc(spec_crc_input(kl, fl, key, payload));
    let rec = spec_record_bytes(key, field);
    let buf = prefix + rec + rest;
    let p = prefix.len() as int;
    assert(rec =~= spec_record_magic() + spec_u16_to_le_bytes(kl) + spec_u32_to_le_bytes(fl)
        + spec_u32_to_le_bytes(crc) + key + payload);
    assert(buf.subrange(p, p + 4) =~= spec_record_magic());
    assert(buf.subrange(p + 4, p + 6) =~= spec_u16_to_le_bytes(kl));
    assert(buf.subrange(p + 6, p + 10) =~= spec_u32_to_le_bytes(fl));
    assert(buf.subrange(p + 10, p + 14) =~= spec_u32_to_le_bytes(crc));
    assert(spec_record_key_len(buf, p) == key.len());
    assert(spec_record_field_len(buf, p) == payload.len());
    assert(buf.subrange(p + 14, p + 14 + key.len()) =~= key);
    assert(buf.subrange(p + 14 + key.len(), p + 14 + key.len() + payload.len()) =~= payload);
    assert(!spec_is_tombstone(buf, p)) by {
        assert(buf.subrange(p, p + 4)[0] != spec_zeros(4)[0]);
    }
}

/// The records of pairs, the first one in front of the records of the others.
pub proof fn lemma_records_bytes_prepend(first: (Seq<u8>, FieldV), tail: Seq<(Seq<u8>, FieldV)>)
    ensures
        spec_records_bytes(seq![first] + tail) == spec_record_bytes(first.0, first.1) + spec_records_bytes(tail),
    decreases tail.len(),
{
    let s = seq![first] + tail;
    if tail.len() == 0 {
        assert(s.drop_last() =~= Seq::<(Seq<u8>, FieldV)>::empty());
        assert(s.last() == first);
        assert(spec_records_bytes(s) == spec_records_bytes(s.drop_last()) + spec_record_bytes(first.0, first.1));
        assert(spec_records_bytes(s.drop_last()) == Seq::<u8>::empty());
        assert(spec_records_bytes(tail) == Seq::<u8>::empty());
        assert(spec_records_bytes(s) =~= spec_record_bytes(first.0, first.1) + spec_records_bytes(tail));
    } else {
        lemma_records_bytes_prepend(first, tail.drop_last());
        assert(s.drop_last() =~= seq![first] + tail.drop_last());
        assert(s.last() == tail.last());
        let r0 = spec_record_bytes(first.0, first.1);
        let rl = spec_record_bytes(tail.last().0, tail.last().1);
        assert(spec_records_bytes(s) == spec_records_bytes(seq![first] + tail.drop_last()) + rl);
        assert(spec_records_bytes(tail) == spec_records_bytes(tail.drop_last()) + rl);
        assert(spec_records_bytes(s) =~= r0 + spec_records_bytes(tail));
    }
}

/// Decoding records at a live record that decodes: its pair, then the records after it.
pub proof fn lemma_decode_records_step(buf: Seq<u8>, p: int)
    requires
        0 <= p < buf.len(),
        p + 14 <= buf.len(),
        !spec_is_tombstone(buf, p),
        spec_decode_record(buf, p) is Ok,
    ensures
        spec_decode_records(buf, p) == match spec_decode_records(buf, spec_record_end(buf, p)) {
            Ok(rest) => Ok(seq![spec_decode_record(buf, p)->Ok_0.0] + rest),
            Err(e) => Err(e),
        },
{
}

/// Records written one after another, to the end of the file, read back as the same pairs in
/// the same order.
#[verifier::rlimit(40)]
pub proof fn lemma_records_roundtrip(prefix: Seq<u8>, pairs: Seq<(Seq<u8>, FieldV)>)
    requires
        forall|i: int| 0 <= i < pairs.len() ==> record_encodable(#[trigger] pairs[i].0, pairs[i].1),
    ensures
        spec_decode_records(prefix + spec_records_bytes(pairs), prefix.len() as int) == Ok::<
            Seq<(Seq<u8>, FieldV)>,
            DecodeFailure,
        >(pairs),
    decreases pairs.len(),
{
    let buf = prefix + spec_records_bytes(pairs);
    if pairs.len() == 0 {
        assert(buf.len() == prefix.len());
        assert(pairs =~= Seq::<(Seq<u8>, FieldV)>::empty());
    } else {
        let first = pairs[0];
        let tail = pairs.drop_first();
        let rec = spec_record_bytes(first.0, first.1);
        assert(buf =~= prefix + rec + spec_records_bytes(tail)) by {
            assert(pairs =~= seq![first] + tail);
            lemma_records_bytes_prepend(first, tail);
        }
        assert forall|i: int| 0 <= i < tail.len() implies record_encodable(#[trigger] tail[i].0, tail[i].1) by {
            assert(tail[i] == pairs[i + 1]);
        }
        lemma_records_roundtrip(prefix + rec, tail);
        assert(record_encodable(pairs[0].0, pairs[0].1));
        lemma_record_roundtrip(prefix, first.0, first.1, spec_records_bytes(tail));
        assert(prefix + rec + spec_records_bytes(tail) == buf);
        lemma_decode_records_step(buf, prefix.len() as int);
        assert(spec_record_end(buf, prefix.len() as int) == (prefix + rec).len());
        assert(spec_decode_record(buf, prefix.len() as int)->Ok_0.0 == first);
        assert(seq![first] + tail =~= pairs);
    }
}

/// The header the data file starts with reads back as its version, record count and name (the
/// name as its stored bytes, zeros trimmed, converted lossily), and the records start after it.
pub proof fn lemma_db_header_roundtrip(meta: DbMetaV, rest: Seq<u8>)
    ensures
        spec_decode_db_header(spec_db_header_bytes(meta) + rest) == Ok::<(DbMetaV, nat), DecodeFailure>(
            (
                DbMetaV {
                    version: 1,
                    record_count: meta.record_count,
                    name: utf8_lossy(spec_trim_zeros(spec_db_name_bytes(meta.name))),
                },
                114,
            ),
        ),
        spec_db_header_bytes(meta).len() == 114,
{
    crate::endian::lemma_endian_roundtrips();
    let h = spec_db_header_bytes(meta);
    let buf = h + rest;
    let name = spec_db_name_bytes(meta.name);
    assert(name.len() == 64);
    assert(h.len() == 114);
    assert(buf.subrange(0, 8) =~= spec_db_header_key());
    assert(buf.subrange(16, 24) =~= spec_db_version_key());
    assert(buf.subrange(26, 34) =~= spec_db_record_count_key());
    assert(buf.subrange(42, 50) =~= spec_db_name_key());
    assert(buf.subrange(34, 42) =~= spec_u64_to_le_bytes(meta.record_count));
    assert(buf.subrange(50, 114) =~= name);
    assert(buf[24] == 1);
}

/// A data file written as a header and records reads back as the header's contents and the
/// same pairs in the same order.
pub proof fn law_db_file_roundtrip(meta: DbMetaV, pairs: Seq<(Seq<u8>, FieldV)>)
    requires
        forall|i: int| 0 <= i < pairs.len() ==> record_encodable(#[trigger] pairs[i].0, pairs[i].1),
    ensures
        spec_decode_db_file(spec_db_header_bytes(meta) + spec_records_bytes(pairs)) == Ok::<
            (DbMetaV, Seq<(Seq<u8>, FieldV)>),
            DecodeFailure,
        >(
            (
                DbMetaV {
                    version: 1,
                    record_count: meta.record_count,
                    name: utf8_lossy(spec_trim_zeros(spec_db_name_bytes(meta.name))),
                },
                pairs,
            ),
        ),
{
    lemma_db_header_roundtrip(meta, spec_records_bytes(pairs));
    lemma_records_roundtrip(spec_db_header_bytes(meta), pairs);
}

/// A deleted record is zero bytes only, fourteen plus its lengths of them: with both lengths
/// zero, fourteen zeros.
pub proof fn law_deleted_record_zeros(key_len: u16, field_len: u32)
    ensures
        spec_tombstone_bytes(key_len, field_len).len() == 14 + key_len + field_len,
        forall|i: int| 0 <= i < 14 + key_len + field_len ==> #[trigger] spec_tombstone_bytes(key_len, field_len)[i] == 0u8,
        spec_tombstone_bytes(0, 0) == spec_zeros(14),
{
}

/// A deleted record is as long as the live record it replaces, so overwriting a record in
/// place leaves the records after it where they were.
pub proof fn law_deleted_record_length(key: Seq<u8>, field: FieldV)
    requires
        record_encodable(key, field),
    ensures
        spec_tombstone_bytes(key.len() as u16, spec_field_bytes(field).len() as u32).len()
            == spec_record_bytes(key, field).len(),
{
    crate::endian::lemma_endian_roundtrips();
}


/// Whether a log entry can be written so that it reads back: its key's length fits a `u16`,
/// and a set's field is encodable with a byte count that fits a `u32`.
pub open spec fn wal_entry_encodable(e: WalEntryV) -> bool {
    match e {
        WalEntryV::SetField(k, f) => record_encodable(k, f),
        WalEntryV::Delete(k) => k.len() <= u16::MAX,
    }
}

/// A log entry reads back as itself, wherever it stands and whatever follows it.
pub proof fn lemma_wal_entry_roundtrip(prefix: Seq<u8>, e: WalEntryV, rest: Seq<u8>)
    requires
        wal_entry_encodable(e),
    ensures
        spec_decode_wal_entry(prefix + spec_wal_entry_bytes(e) + rest, prefix.len() as int) == Ok::<
            (WalEntryV, nat),
            DecodeFailure,
        >((e, prefix.len() + spec_wal_entry_bytes(e).len())),
        spec_wal_entry_end(prefix + spec_wal_entry_bytes(e) + rest, prefix.len() as int) == prefix.len()
            + spec_wal_entry_bytes(e).len(),
        spec_wal_entry_bytes(e).len() >= 3,
{
    crate::endian::lemma_endian_roundtrips();
    let b = spec_wal_entry_bytes(e);
    let buf = prefix + b + rest;
    let p = prefix.len() as int;
    match e {
        WalEntryV::SetField(k, f) => {
            lemma_field_roundtrip(f);
            let payload = spec_field_bytes(f);
            assert(buf[p] == 0x01u8);
            assert(buf.subrange(p + 1, p + 3) =~= spec_u16_to_le_bytes(k.len() as u16));
            assert(buf.subrange(p + 3, p + 3 + k.len()) =~= k);
            assert(buf.subrange(p + 3 + k.len(), p + 7 + k.len()) =~= spec_u32_to_le_bytes(payload.len() as u32));
            assert(buf.subrange(p + 7 + k.len(), p + 7 + k.len() + payload.len()) =~= payload);
        },
        WalEntryV::Delete(k) => {
            assert(buf[p] == 0x02u8);
            assert(buf.subrange(p + 1, p + 3) =~= spec_u16_to_le_bytes(k.len() as u16));
            assert(buf.subrange(p + 3, p + 3 + k.len()) =~= k);
        },
    }
}

/// The log bytes of entries, the first one's in front of the others'.
pub proof fn lemma_wal_bytes_prepend(first: WalEntryV, tail: Seq<WalEntryV>)
    ensures
        spec_wal_bytes(seq![first] + tail) == spec_wal_entry_bytes(first) + spec_wal_bytes(tail),
    decreases tail.len(),
{
    let s = seq![first] + tail;
    if tail.len() == 0 {
        assert(s.drop_last() =~= Seq::<WalEntryV>::empty());
        assert(s.last() == first);
        assert(spec_wal_bytes(s) == spec_wal_bytes(s.drop_last()) + spec_wal_entry_bytes(first));
        assert(spec_wal_bytes(s.drop_last()) == Seq::<u8>::empty());
        assert(spec_wal_bytes(tail) == Seq::<u8>::empty());
        assert(spec_wal_bytes(s) =~= spec_wal_entry_bytes(first) + spec_wal_bytes(tail));
    } else {
        lemma_wal_bytes_prepend(first, tail.drop_last());
        assert(s.drop_last() =~= seq![first] + tail.drop_last());
        assert(s.last() == tail.last());
        let l = spec_wal_entry_bytes(tail.last());
        assert(spec_wal_bytes(s) == spec_wal_bytes(seq![first] + tail.drop_last()) + l);
        assert(spec_wal_bytes(tail) == spec_wal_bytes(tail.drop_last()) + l);
        assert(spec_wal_bytes(s) =~= spec_wal_entry_bytes(first) + spec_wal_bytes(tail));
    }
}

/// Decoding log entries at an entry that decodes: that entry, then the entries after it.
pub proof fn lemma_decode_wal_step(buf: Seq<u8>, p: int)
    requires
        0 <= p < buf.len(),
        spec_decode_wal_entry(buf, p) is Ok,
        spec_wal_entry_end(buf, p) > p,
    ensures
        spec_decode_wal_from(buf, p) == match spec_decode_wal_from(buf, spec_wal_entry_end(buf, p)) {
            Ok(rest) => Ok(seq![spec_decode_wal_entry(buf, p)->Ok_0.0] + rest),
            Err(e) => Err(e),
        },
{
}

/// Log entries written one after another read back as the same entries in the same order.
#[verifier::rlimit(40)]
pub proof fn lemma_wal_roundtrip_from(prefix: Seq<u8>, es: Seq<WalEntryV>)
    requires
        forall|i: int| 0 <= i < es.len() ==> wal_entry_encodable(#[trigger] es[i]),
    ensures
        spec_decode_wal_from(prefix + spec_wal_bytes(es), prefix.len() as int) == Ok::<Seq<WalEntryV>, DecodeFailure>(es),
    decreases es.len(),
{
    let buf = prefix + spec_wal_bytes(es);
    if es.len() == 0 {
        assert(buf.len() == prefix.len());
        assert(es =~= Seq::<WalEntryV>::empty());
    } else {
        let first = es[0];
        let tail = es.drop_first();
        let b = spec_wal_entry_bytes(first);
        assert(buf =~= prefix + b + spec_wal_bytes(tail)) by {
            assert(es =~= seq![first] + tail);
            lemma_wal_bytes_prepend(first, tail);
        }
        assert forall|i: int| 0 <= i < tail.len() implies wal_entry_encodable(#[trigger] tail[i]) by {
            assert(tail[i] == es[i + 1]);
        }
        lemma_wal_roundtrip_from(prefix + b, tail);
        assert(wal_entry_encodable(es[0]));
        lemma_wal_entry_roundtrip(prefix, first, spec_wal_bytes(tail));
        assert(prefix + b + spec_wal_bytes(tail) == buf);
        lemma_decode_wal_step(buf, prefix.len() as int);
        assert(spec_wal_entry_end(buf, prefix.len() as int) == (prefix + b).len());
        assert(seq![first] + tail =~= es);
    }
}

/// A log file holding the bytes of entries, one after another, replays as exactly those
/// entries in that order.
pub proof fn law_wal_roundtrip(es: Seq<WalEntryV>)
    requires
        forall|i: int| 0 <= i < es.len() ==> wal_entry_encodable(#[trigger] es[i]),
    ensures
        spec_decode_wal(spec_wal_bytes(es)) == Ok::<Seq<WalEntryV>, DecodeFailure>(es),
{
    lemma_wal_roundtrip_from(Seq::empty(), es);
    assert(Seq::<u8>::empty() + spec_wal_bytes(es) =~= spec_wal_bytes(es));
}

/// Whether an index pair can be written so that it reads back: the key's length fits a `u16`
/// and is the length the entry records.
pub open spec fn index_entry_encodable(key: Seq<u8>, e: IndexEntry) -> bool {
    key.len() <= u16::MAX && e.key_len == key.len()
}

/// An index entry reads back as its key and entry, wherever it stands and whatever follows.
pub proof fn lemma_index_entry_roundtrip(prefix: Seq<u8>, key: Seq<u8>, e: IndexEntry, rest: Seq<u8>)
    requires
        index_entry_encodable(key, e),
    ensures
        spec_decode_index_entry(prefix + spec_index_entry_bytes(key, e) + rest, prefix.len() as int) == Ok::<
            ((Seq<u8>, IndexEntry), nat),
            DecodeFailure,
        >(((key, e), prefix.len() + spec_index_entry_bytes(key, e).len())),
        spec_index_entry_bytes(key, e).len() >= 14,
{
    crate::endian::lemma_endian_roundtrips();
    let buf = prefix + spec_index_entry_bytes(key, e) + rest;
    let p = prefix.len() as int;
    let q = p + 2 + key.len();
    assert(buf.subrange(p, p + 2) =~= spec_u16_to_le_bytes(key.len() as u16));
    assert(buf.subrange(p + 2, q) =~= key);
    assert(buf.subrange(q, q + 4) =~= spec_u32_to_le_bytes(e.field_len));
    assert(buf.subrange(q + 4, q + 12) =~= spec_u64_to_le_bytes(e.offset));
}

/// The index bytes of pairs, the first one's in front of the others'.
pub proof fn lemma_index_bytes_prepend(first: (Seq<u8>, IndexEntry), tail: Seq<(Seq<u8>, IndexEntry)>)
    ensures
        spec_index_bytes(seq![first] + tail) == spec_index_entry_bytes(first.0, first.1) + spec_index_bytes(tail),
    decreases tail.len(),
{
    let s = seq![first] + tail;
    if tail.len() == 0 {
        assert(s.drop_last() =~= Seq::<(Seq<u8>, IndexEntry)>::empty());
        assert(s.last() == first);
        assert(spec_index_bytes(s) == spec_index_bytes(s.drop_last()) + spec_index_entry_bytes(first.0, first.1));
        assert(spec_index_bytes(s.drop_last()) == Seq::<u8>::empty());
        assert(spec_index_bytes(tail) == Seq::<u8>::empty());
        assert(spec_index_bytes(s) =~= spec_index_entry_bytes(first.0, first.1) + spec_index_bytes(tail));
    } else {
        lemma_index_bytes_prepend(first, tail.drop_last());
        assert(s.drop_last() =~= seq![first] + tail.drop_last());
        assert(s.last() == tail.last());
        let l = spec_index_entry_bytes(tail.last().0, tail.last().1);
        assert(spec_index_bytes(s) == spec_index_bytes(seq![first] + tail.drop_last()) + l);
        assert(spec_index_bytes(tail) == spec_index_bytes(tail.drop_last()) + l);
        assert(spec_index_bytes(s) =~= spec_index_entry_bytes(first.0, first.1) + spec_index_bytes(tail));
    }
}

/// Index entries written one after another read back as the same pairs in the same order.
#[verifier::rlimit(40)]
pub proof fn lemma_index_roundtrip(prefix: Seq<u8>, pairs: Seq<(Seq<u8>, IndexEntry)>)
    requires
        forall|i: int| 0 <= i < pairs.len() ==> index_entry_encodable(#[trigger] pairs[i].0, pairs[i].1),
    ensures
        spec_decode_index_from(prefix + spec_index_bytes(pairs), prefix.len() as int) == Ok::<
            Seq<(Seq<u8>, IndexEntry)>,
            DecodeFailure,
        >(pairs),
    decreases pairs.len(),
{
    let buf = prefix + spec_index_bytes(pairs);
    if pairs.len() == 0 {
        assert(buf.len() == prefix.len());
        assert(pairs =~= Seq::<(Seq<u8>, IndexEntry)>::empty());
    } else {
        let first = pairs[0];
        let tail = pairs.drop_first();
        let b = spec_index_entry_bytes(first.0, first.1);
        assert(buf =~= prefix + b + spec_index_bytes(tail)) by {
            assert(pairs =~= seq![first] + tail);
            lemma_index_bytes_prepend(first, tail);
        }
        assert forall|i: int| 0 <= i < tail.len() implies index_entry_encodable(#[trigger] tail[i].0, tail[i].1) by {
            assert(tail[i] == pairs[i + 1]);
        }
        lemma_index_roundtrip(prefix + b, tail);
        assert(index_entry_encodable(pairs[0].0, pairs[0].1));
        lemma_index_entry_roundtrip(prefix, first.0, first.1, spec_index_bytes(tail));
        assert(prefix + b + spec_index_bytes(tail) == buf);
        assert(seq![first] + tail =~= pairs);
    }
}

/// A log entry is a tag byte, `0x01` for a set and `0x02` for a delete, then the key's length
/// (little-endian `u16`) and its bytes, then for a set the field's byte count (little-endian
/// `u32`) and its bytes. Decoding such bytes gives that entry, whatever follows.
pub proof fn law_wal_entry_tags(k: Seq<u8>, f: FieldV, rest: Seq<u8>)
    requires
        k.len() <= u16::MAX,
        field_encodable(f),
        spec_field_bytes(f).len() <= u32::MAX,
    ensures
        spec_decode_wal_entry(seq![0x02u8] + spec_u16_to_le_bytes(k.len() as u16) + k + rest, 0) == Ok::<
            (WalEntryV, nat),
            DecodeFailure,
        >((WalEntryV::Delete(k), 3 + k.len())),
        spec_decode_wal_entry(
            seq![0x01u8] + spec_u16_to_le_bytes(k.len() as u16) + k + spec_u32_to_le_bytes(
                spec_field_bytes(f).len() as u32,
            ) + spec_field_bytes(f) + rest,
            0,
        ) == Ok::<(WalEntryV, nat), DecodeFailure>(
            (WalEntryV::SetField(k, f), 7 + k.len() + spec_field_bytes(f).len()),
        ),
        spec_wal_entry_bytes(WalEntryV::Delete(k))[0] == 0x02u8,
        spec_wal_entry_bytes(WalEntryV::SetField(k, f))[0] == 0x01u8,
{
    crate::endian::lemma_endian_roundtrips();
    lemma_field_roundtrip(f);
    let n = k.len() as int;
    let kl = spec_u16_to_le_bytes(k.len() as u16);
    let fb = spec_field_bytes(f);
    let fl = spec_u32_to_le_bytes(fb.len() as u32);
    let d = seq![0x02u8] + kl + k + rest;
    assert(d[0] == 0x02u8);
    assert(d.subrange(1, 3) =~= kl);
    assert(d.subrange(3, 3 + n) =~= k);
    let st = seq![0x01u8] + kl + k + fl + fb + rest;
    assert(st[0] == 0x01u8);
    assert(st.subrange(1, 3) =~= kl);
    assert(st.subrange(3, 3 + n) =~= k);
    assert(st.subrange(3 + n, 7 + n) =~= fl);
    assert(st.subrange(7 + n, 7 + n + fb.len()) =~= fb);
}

/// A live record is the magic number `REC` `0x01`, the key's length (little-endian `u16`), the
/// field's byte count (little-endian `u32`), the checksum (little-endian `u32`) of the lengths,
/// four zero bytes, the key and the field, then the key and the field's bytes.
pub proof fn law_record_layout(k: Seq<u8>, f: FieldV)
    requires
        k.len() <= u16::MAX,
        spec_field_bytes(f).len() <= u32::MAX,
    ensures
        ({
            let r = spec_record_bytes(k, f);
            let fb = spec_field_bytes(f);
            let kl = spec_u16_to_le_bytes(k.len() as u16);
            let fl = spec_u32_to_le_bytes(fb.len() as u32);
            &&& r.subrange(0, 4) == seq![0x52u8, 0x45u8, 0x43u8, 0x01u8]
            &&& r.subrange(4, 6) == kl
            &&& r.subrange(6, 10) == fl
            &&& r.subrange(10, 14) == spec_u32_to_le_bytes(
                crc32_iso_hdlc(kl + fl + seq![0u8, 0u8, 0u8, 0u8] + k + fb),
            )
            &&& r.subrange(14, 14 + k.len() as int) == k
            &&& r.subrange(14 + k.len() as int, r.len() as int) == fb
        }),
{
    crate::endian::lemma_endian_roundtrips();
    let r = spec_record_bytes(k, f);
    let fb = spec_field_bytes(f);
    let kl = spec_u16_to_le_bytes(k.len() as u16);
    let fl = spec_u32_to_le_bytes(fb.len() as u32);
    let n = k.len() as int;
    assert(spec_zeros(4) =~= seq![0u8, 0u8, 0u8, 0u8]);
    let c = spec_u32_to_le_bytes(crc32_iso_hdlc(kl + fl + seq![0u8, 0u8, 0u8, 0u8] + k + fb));
    assert(r =~= seq![0x52u8, 0x45u8, 0x43u8, 0x01u8] + kl + fl + c + k + fb);
    assert(r.subrange(0, 4) =~= seq![0x52u8, 0x45u8, 0x43u8, 0x01u8]);
    assert(r.subrange(4, 6) =~= kl);
    assert(r.subrange(6, 10) =~= fl);
    assert(r.subrange(10, 14) =~= c);
    assert(r.subrange(14, 14 + n) =~= k);
    assert(r.subrange(14 + n, r.len() as int) =~= fb);
}

/// The data file's header: `Header--`, the magic number `0x50656163684442` (little-endian
/// `u64`), `Version-`, the version `1` and `0`, `RecCount`, the record count (little-endian
/// `u64`), `DB Name-`, then the name's first 64 UTF-8 bytes padded with zeros.
pub proof fn law_header_layout(meta: DbMetaV)
    ensures
        ({
            let h = spec_db_header_bytes(meta);
            &&& h.len() == 114
            &&& h.subrange(0, 8) == seq![0x48u8, 0x65u8, 0x61u8, 0x64u8, 0x65u8, 0x72u8, 0x2Du8, 0x2Du8]
            &&& h.subrange(8, 16) == spec_u64_to_le_bytes(0x50656163684442u64)
            &&& h.subrange(16, 24) == seq![0x56u8, 0x65u8, 0x72u8, 0x73u8, 0x69u8, 0x6Fu8, 0x6Eu8, 0x2Du8]
            &&& h[24] == 1u8
            &&& h[25] == 0u8
            &&& h.subrange(26, 34) == seq![0x52u8, 0x65u8, 0x63u8, 0x43u8, 0x6Fu8, 0x75u8, 0x6Eu8, 0x74u8]
            &&& h.subrange(34, 42) == spec_u64_to_le_bytes(meta.record_count)
            &&& h.subrange(42, 50) == seq![0x44u8, 0x42u8, 0x20u8, 0x4Eu8, 0x61u8, 0x6Du8, 0x65u8, 0x2Du8]
            &&& encode_utf8(meta.name).len() <= 64 ==> h.subrange(50, 50 + encode_utf8(meta.name).len() as int)
                == encode_utf8(meta.name)
            &&& forall|i: int| 50 + encode_utf8(meta.name).len() <= i < 114 ==> h[i] == 0u8
        }),
{
    crate::endian::lemma_endian_roundtrips();
    let h = spec_db_header_bytes(meta);
    let b = encode_utf8(meta.name);
    let nb = spec_db_name_bytes(meta.name);
    assert(nb.len() == 64);
    assert(h.subrange(0, 8) =~= spec_db_header_key());
    assert(h.subrange(8, 16) =~= spec_u64_to_le_bytes(0x50656163684442u64));
    assert(h.subrange(16, 24) =~= spec_db_version_key());
    assert(h.subrange(26, 34) =~= spec_db_record_count_key());
    assert(h.subrange(34, 42) =~= spec_u64_to_le_bytes(meta.record_count));
    assert(h.subrange(42, 50) =~= spec_db_name_key());
    assert(h.subrange(50, 114) =~= nb);
    if b.len() <= 64 {
        assert(h.subrange(50, 50 + b.len() as int) =~= b);
    }
    assert forall|i: int| 50 + b.len() <= i < 114 implies h[i] == 0u8 by {
        assert(h[i] == nb[i - 50]);
    }
}

/// An index entry is the key's length (little-endian `u16`), the key, the field's byte count
/// (little-endian `u32`) and the record's offset (little-endian `u64`); decoding such bytes gives
/// that key and entry, whatever follows.
pub proof fn law_index_entry_layout(k: Seq<u8>, field_len: u32, offset: u64, rest: Seq<u8>)
    requires
        k.len() <= u16::MAX,
    ensures
        spec_index_entry_bytes(k, IndexEntry { offset, key_len: k.len() as u16, field_len })
            == spec_u16_to_le_bytes(k.len() as u16) + k + spec_u32_to_le_bytes(field_len) + spec_u64_to_le_bytes(
            offset,
        ),
        spec_decode_index_entry(
            spec_u16_to_le_bytes(k.len() as u16) + k + spec_u32_to_le_bytes(field_len) + spec_u64_to_le_bytes(offset)
                + rest,
            0,
        ) == Ok::<((Seq<u8>, IndexEntry), nat), DecodeFailure>(
            ((k, IndexEntry { offset, key_len: k.len() as u16, field_len }), 14 + k.len()),
        ),
{
    crate::endian::lemma_endian_roundtrips();
    let n = k.len() as int;
    let kl = spec_u16_to_le_bytes(k.len() as u16);
    let fl = spec_u32_to_le_bytes(field_len);
    let ol = spec_u64_to_le_bytes(offset);
    let b = kl + k + fl + ol + rest;
    assert(b.subrange(0, 2) =~= kl);
    assert(b.subrange(2, 2 + n) =~= k);
    assert(b.subrange(2 + n, 6 + n) =~= fl);
    assert(b.subrange(6 + n, 14 + n) =~= ol);
}

} // verus!
