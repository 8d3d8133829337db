use peachdb::db::db::new_db_header;
use peachdb::db::keymap::KeyMap;
use peachdb::db::{
    decode, encode, DBDecoder, DBDeleter, DBEncoder, DbMeta, IndexDecoder, IndexEncoder, IndexEntry,
    IndexFromDBDecoder, WalDecoder, WalEncoder, WalEntry,
};
use peachdb::dtypes::{bytes_from_field, field_from_bytes, Dtype, Field, Key, Primitive};
use peachdb::error::PeachDbError;

fn crc32(data: &[u8]) -> u32 {
    crc::Crc::<u32>::new(&crc::CRC_32_ISO_HDLC).checksum(data)
}

#[test]
fn record_layout_and_checksum() {
    let key = Key::from("k");
    let field = Field::Primitive(Primitive::Integer(7));
    let payload = bytes_from_field(&field);
    let rec = encode(&key, &field);
    assert_eq!(&rec[0..4], &[0x52, 0x45, 0x43, 0x01]);
    assert_eq!(&rec[4..6], &1u16.to_le_bytes());
    assert_eq!(&rec[6..10], &(payload.len() as u32).to_le_bytes());
    let mut crc_input = Vec::new();
    crc_input.extend_from_slice(&1u16.to_le_bytes());
    crc_input.extend_from_slice(&(payload.len() as u32).to_le_bytes());
    crc_input.extend_from_slice(&[0, 0, 0, 0]);
    crc_input.extend_from_slice(b"k");
    crc_input.extend_from_slice(&payload);
    assert_eq!(&rec[10..14], &crc32(&crc_input).to_le_bytes());
    assert_eq!(&rec[14..15], b"k");
    assert_eq!(&rec[15..], payload.as_slice());
    assert_eq!(crc32(b"123456789"), 0xCBF4_3926);
}

#[test]
fn record_with_bad_checksum_is_corrupted() {
    let mut rec = encode(&Key::from("k"), &Field::Primitive(Primitive::Boolean(false)));
    rec[10] ^= 1;
    match decode(&rec) {
        Err(PeachDbError::CorruptedRecord { reason }) => assert_eq!(reason, "Checksum Mismatch"),
        r => panic!("expected a checksum mismatch, got {:?}", r),
    }
    let mut rec = encode(&Key::from("k"), &Field::Primitive(Primitive::Boolean(false)));
    rec[0] = 0x51;
    assert!(matches!(decode(&rec), Err(PeachDbError::InvalidMagicBytes)));
}

#[test]
fn deleted_record_bytes() {
    let mut deleter = DBDeleter::new();
    deleter.set_key_len(3);
    deleter.set_field_len(5);
    deleter.get_deleted_field();
    let bytes = deleter.finish().to_vec();
    assert_eq!(bytes, vec![0u8; 14 + 3 + 5]);
    deleter.reset();
    assert!(deleter.finish().is_empty());
    deleter.get_deleted_field();
    assert_eq!(deleter.finish(), &[0u8; 14]);
    let mut deleter = DBDeleter::new();
    deleter.set_key_len(3);
    deleter.set_field_len(2);
    deleter.get_deleted_field();
    assert_eq!(deleter.finish(), &[0u8; 19]);
}

#[test]
fn data_file_roundtrip_skips_deleted_records() {
    let mut file = new_db_header("files".to_string());
    let a = encode(&Key::from("a"), &Field::Primitive(Primitive::Integer(1)));
    let b = encode(&Key::from("bb"), &Field::Raw(vec![1, 2, 3, 4]));
    let c = encode(&Key::from("a"), &Field::Primitive(Primitive::Integer(2)));
    let b_at = file.len() + a.len();
    file.extend_from_slice(&a);
    file.extend_from_slice(&b);
    file.extend_from_slice(&c);
    let mut deleter = DBDeleter::new();
    deleter.set_key_len(2);
    deleter.set_field_len((b.len() - 16) as u32);
    deleter.get_deleted_field();
    let tomb = deleter.finish().to_vec();
    assert_eq!(tomb.len(), b.len());
    file[b_at..b_at + tomb.len()].copy_from_slice(&tomb);

    let mut decoder = DBDecoder::new(&file);
    decoder.decode_db_file().expect("decode");
    let (fields, meta) = decoder.finish().expect("finish");
    assert_eq!(meta.version, 1);
    assert_eq!(meta.record_count, 0);
    assert_eq!(meta.name, "files");
    assert_eq!(fields.len(), 1);
    assert!(matches!(fields.get(&Key::from("a")), Some(Field::Primitive(Primitive::Integer(2)))));
    assert!(fields.get(&Key::from("bb")).is_none());

    let mut index_decoder = IndexFromDBDecoder::new(&file);
    index_decoder.decode_index_from_file().expect("index from file");
    let index = index_decoder.finish().expect("index");
    assert_eq!(index.len(), 1);
    let entry = index.get(&Key::from("a")).expect("a indexed");
    assert_eq!(entry.offset as usize, 114 + a.len() + b.len());
    assert_eq!(entry.key_len, 1);
}

#[test]
fn header_roundtrip_through_encoder() {
    let mut encoder = DBEncoder::new();
    encoder.encode_db_header(&DbMeta { version: 1, record_count: 3, name: "hdr".to_string() });
    let bytes = encoder.finish().to_vec();
    assert_eq!(bytes, {
        let mut h = new_db_header("hdr".to_string());
        h[34..42].copy_from_slice(&3u64.to_le_bytes());
        h
    });
    let mut decoder = DBDecoder::new(&bytes);
    decoder.decode_db_file().expect("decode");
    let (fields, meta) = decoder.finish().expect("finish");
    assert_eq!(fields.len(), 0);
    assert_eq!(meta.record_count, 3);
    assert_eq!(meta.name, "hdr");
}

#[test]
fn header_name_is_read_lossily() {
    let mut header = new_db_header("x".to_string());
    header[50] = 0xff;
    let mut decoder = DBDecoder::new(&header);
    decoder.decode_db_file().expect("decode");
    let (_, meta) = decoder.finish().expect("finish");
    assert_eq!(meta.name, "\u{FFFD}");
}

#[test]
fn header_with_wrong_name_is_rejected() {
    let mut header = new_db_header("x".to_string());
    header[0] = b'h';
    let mut decoder = DBDecoder::new(&header);
    assert!(matches!(decoder.decode_db_file(), Err(PeachDbError::InvalidMagicBytes)));
}

#[test]
fn wal_roundtrip() {
    let entries = vec![
        WalEntry::SetField(Key::from("a"), Field::Primitive(Primitive::String("x".to_string()))),
        WalEntry::Delete(Key::from("b")),
        WalEntry::SetField(Key::from("c"), Field::Array(Dtype::Boolean, vec![Primitive::Boolean(true)])),
    ];
    let mut bytes = Vec::new();
    for e in &entries {
        let mut encoder = WalEncoder::new();
        encoder.encode_wal_entry(e);
        bytes.extend_from_slice(encoder.finish());
    }
    assert_eq!(bytes[0], 0x01);
    let mut decoder = WalDecoder::new(&bytes);
    decoder.decode_wal_entries().expect("decode");
    let back = decoder.finish().expect("finish");
    assert_eq!(back.len(), 3);
    match &back[0] {
        WalEntry::SetField(k, Field::Primitive(Primitive::String(s))) => {
            assert_eq!(k.as_bytes(), b"a");
            assert_eq!(s, "x");
        }
        e => panic!("unexpected entry {:?}", e),
    }
    assert!(matches!(&back[1], WalEntry::Delete(k) if k.as_bytes() == b"b"));
    match &back[2] {
        WalEntry::SetField(k, Field::Array(dt, items)) => {
            assert_eq!(k.as_bytes(), b"c");
            assert_eq!(*dt, Dtype::Boolean);
            assert!(matches!(items.as_slice(), [Primitive::Boolean(true)]));
        }
        e => panic!("unexpected entry {:?}", e),
    }
}

#[test]
fn wal_truncated_entry_is_an_error() {
    let mut encoder = WalEncoder::new();
    encoder.encode_wal_entry(&WalEntry::Delete(Key::from("abc")));
    let bytes = encoder.finish().to_vec();
    let mut decoder = WalDecoder::new(&bytes[..bytes.len() - 1]);
    assert!(decoder.decode_wal_entries().is_err());
}

#[test]
fn index_roundtrip() {
    let mut index: KeyMap<IndexEntry> = KeyMap::new();
    index.insert(Key::from("one"), IndexEntry { offset: 114, key_len: 3, field_len: 9 });
    index.insert(Key::from("two"), IndexEntry { offset: 140, key_len: 3, field_len: 1 });
    let mut encoder = IndexEncoder::new();
    encoder.encode_index_file(&index);
    let bytes = encoder.finish().to_vec();
    assert_eq!(bytes.len(), 2 * (2 + 3 + 4 + 8));
    let mut decoder = IndexDecoder::new(&bytes);
    decoder.decode_index_file().expect("decode");
    let back = decoder.finish().expect("finish");
    assert_eq!(back.len(), 2);
    assert_eq!(*back.get(&Key::from("one")).unwrap(), IndexEntry { offset: 114, key_len: 3, field_len: 9 });
    assert_eq!(*back.get(&Key::from("two")).unwrap(), IndexEntry { offset: 140, key_len: 3, field_len: 1 });
}

#[test]
fn dtype_bytes() {
    assert_eq!(Dtype::try_from(0x00u8).unwrap(), Dtype::Raw);
    assert_eq!(Dtype::try_from(0x04u8).unwrap(), Dtype::Boolean);
    assert_eq!(Dtype::try_from(0x13u8).unwrap(), Dtype::Array(3));
    assert!(matches!(Dtype::try_from(0x1Fu8), Err(PeachDbError::UnknownDtype { byte: 0x1F })));
    assert!(matches!(Dtype::try_from(0x05u8), Err(PeachDbError::UnknownDtype { byte: 0x05 })));
    assert_eq!(Dtype::Array(2).as_byte(), 0x12);
    assert_eq!(Dtype::Float.as_byte(), 0x02);
}

#[test]
fn field_decoding_errors() {
    assert!(matches!(field_from_bytes(&[0x01, 1, 2]), Err(PeachDbError::BufferTooShort)));
    assert!(matches!(field_from_bytes(&[0x09, 0]), Err(PeachDbError::UnknownDtype { byte: 0x09 })));
    let bad_utf8 = [0x03, 1, 0, 0, 0, 0xff];
    assert!(matches!(field_from_bytes(&bad_utf8), Err(PeachDbError::CorruptedRecord { .. })));
    let f = Field::Primitive(Primitive::Float(1.5f64.to_bits()));
    let (back, n) = field_from_bytes(&bytes_from_field(&f)).expect("float");
    assert_eq!(n, bytes_from_field(&f).len());
    assert!(matches!(back, Field::Primitive(Primitive::Float(bits)) if f64::from_bits(bits) == 1.5));
}

#[test]
fn key_views() {
    let k = Key::from("abc");
    assert_eq!(k.len(), 3);
    assert_eq!(k.as_bytes(), b"abc");
    assert_eq!(Key::from(vec![1u8, 2]).as_bytes(), &[1, 2]);
    assert_eq!(Key::from(&[7u8][..]).as_bytes(), &[7]);
    assert!(Key::empty().as_bytes().is_empty());
    assert!(Key::from("x") == Key::from_bytes(b"x"));
    assert!(Key::from("x") != Key::from_str("y"));
    let k = Key::from("ab");
    let r: &[u8] = k.as_ref();
    assert_eq!(r, b"ab");
}

#[test]
fn key_as_text() {
    assert_eq!(Key::from("hello").to_string(), "hello");
    assert_eq!(Key::empty().to_string(), "");
    let bytes = vec![0xffu8, 1, 20];
    assert_eq!(Key::from(bytes.clone()).to_string(), "[255, 1, 20]");
    assert_eq!(Key::from(bytes.clone()).to_string(), format!("{:?}", bytes));
    assert_eq!(Key::from(vec![0xc3u8]).to_string(), "[195]");
}

#[test]
fn deleted_records_at_the_end_and_in_a_row_are_passed_over() {
    let mut file = new_db_header("zeros".to_string());
    let a = encode(&Key::from("a"), &Field::Primitive(Primitive::Integer(1)));
    let b = encode(&Key::from("b"), &Field::Primitive(Primitive::Integer(2)));
    let c = encode(&Key::from("c"), &Field::Primitive(Primitive::Integer(3)));
    let a_at = file.len();
    file.extend_from_slice(&a);
    file.extend_from_slice(&b);
    let c_at = file.len();
    file.extend_from_slice(&c);
    file[a_at..a_at + a.len()].fill(0);
    file[c_at..c_at + c.len()].fill(0);
    let mut decoder = DBDecoder::new(&file);
    decoder.decode_db_file().expect("decode");
    let (fields, _) = decoder.finish().expect("finish");
    assert_eq!(fields.len(), 1);
    assert!(matches!(fields.get(&Key::from("b")), Some(Field::Primitive(Primitive::Integer(2)))));
    let mut index_decoder = IndexFromDBDecoder::new(&file);
    index_decoder.decode_index_from_file().expect("index");
    let index = index_decoder.finish().expect("index");
    assert_eq!(index.len(), 1);
    assert_eq!(index.get(&Key::from("b")).unwrap().offset as usize, a_at + a.len());
}

#[test]
fn finish_after_a_failed_header_is_invalid_finish_call() {
    let header = new_db_header("x".to_string());
    let mut decoder = DBDecoder::new(&header[..20]);
    assert!(decoder.decode_db_file().is_err());
    assert!(matches!(decoder.finish(), Err(PeachDbError::InvalidFinishCall)));
    let decoder = DBDecoder::new(&header);
    assert!(matches!(decoder.finish(), Err(PeachDbError::InvalidFinishCall)));
}
