use peachdb::db::db::{check_db_name, net_entries_of, new_db_header, FlushOp, State, RECORD_COUNT_OFFSET};
use peachdb::db::store::Store;
use peachdb::db::{decode, encode, DBDeleter, Wal, WalEntry};
use peachdb::dtypes::{bytes_from_field, Field, Key, Primitive};
use peachdb::error::PeachDbError;

// ── an in-memory database: the state, its log, its data file and its index file ─────────────

struct MemDb {
    store: Store,
    wal_file: Vec<u8>,
    file: Vec<u8>,
    index_file: Vec<u8>,
}

impl MemDb {
    fn new(name: &str) -> MemDb {
        MemDb { store: Store::new(), wal_file: Vec::new(), file: new_db_header(name.to_string()), index_file: Vec::new() }
    }

    fn log(&mut self, entry: WalEntry) {
        self.wal_file.extend_from_slice(&Wal::entry_bytes(&entry));
        self.store.apply_logged(entry);
    }

    fn set(&mut self, key: &str, field: Field) {
        self.log(WalEntry::SetField(Key::from(key), field));
    }

    fn delete(&mut self, key: &str) {
        self.log(WalEntry::Delete(Key::from(key)));
    }

    fn flush(&mut self) {
        let ops = self.store.plan_flush();
        let mut offsets = Vec::new();
        for op in &ops {
            match op {
                FlushOp::Append { record, .. } => {
                    offsets.push(self.file.len() as u64);
                    self.file.extend_from_slice(record);
                }
                FlushOp::Tombstone { offset, bytes, .. } => {
                    let o = *offset as usize;
                    self.file[o..o + bytes.len()].copy_from_slice(bytes);
                }
            }
        }
        self.store.finish_flush(&ops, &offsets);
        let (pos, bytes) = self.store.state().record_count_update();
        let pos = pos as usize;
        self.file[pos..pos + bytes.len()].copy_from_slice(&bytes);
        self.index_file = self.store.state().index_file_bytes();
        self.wal_file.clear();
        assert!(self.store.entries().is_empty());
    }

    fn state(&self) -> &State {
        self.store.state()
    }

    fn reopen(&self) -> State {
        let mut wal = Wal::new();
        wal.replay(&self.wal_file).expect("replay");
        State::init(&self.file, &self.index_file, &wal).expect("reopen")
    }

    fn reopen_store(&self) -> Store {
        let mut wal = Wal::new();
        wal.replay(&self.wal_file).expect("replay");
        Store::open(&self.file, &self.index_file, wal).expect("reopen")
    }
}

fn string_of(r: Result<Field, PeachDbError>) -> String {
    match r.expect("get") {
        Field::Primitive(Primitive::String(s)) => s,
        _ => panic!("unexpected variant"),
    }
}

// ── the database's scenarios ─────────────────────────────────────────────────────────────────

#[test]
fn db_set_get_persist_roundtrip() {
    let mut db = MemDb::new("peachdb_test");
    db.set("test-key", Field::Primitive(Primitive::String("hello-world".to_string())));
    assert_eq!(string_of(db.state().get(&Key::from("test-key"))), "hello-world");
    db.flush();
    let reopened = db.reopen();
    assert_eq!(string_of(reopened.get(&Key::from("test-key"))), "hello-world");
}

#[test]
fn db_delete_and_flush() {
    let mut db = MemDb::new("peachdb_test");
    db.set("to-delete", Field::Primitive(Primitive::Integer(123)));
    db.flush();
    db.delete("to-delete");
    db.flush();
    assert!(db.state().get(&Key::from("to-delete")).is_err(), "deleted key should not be found");
    let reopened = db.reopen();
    assert!(matches!(reopened.get(&Key::from("to-delete")), Err(PeachDbError::KeyNotFound)));
}

#[test]
fn reopen_replays_unflushed_log() {
    let mut db = MemDb::new("replay");
    db.set("a", Field::Primitive(Primitive::Integer(1)));
    db.flush();
    db.set("b", Field::Primitive(Primitive::Boolean(true)));
    db.delete("a");
    let reopened = db.reopen();
    assert!(matches!(reopened.get(&Key::from("a")), Err(PeachDbError::KeyNotFound)));
    assert!(matches!(reopened.get(&Key::from("b")), Ok(Field::Primitive(Primitive::Boolean(true)))));
}

#[test]
fn reopen_without_index_file_reads_index_from_data_file() {
    let mut db = MemDb::new("noindex");
    db.set("k1", Field::Raw(vec![1, 2, 3]));
    db.set("k2", Field::Primitive(Primitive::Integer(-5)));
    db.flush();
    let with_index = db.reopen();
    db.index_file.clear();
    let without_index = db.reopen();
    assert_eq!(with_index.index_file_bytes(), without_index.index_file_bytes());
    assert_eq!(db.state().index_file_bytes(), without_index.index_file_bytes());
}

#[test]
fn reopen_keeps_deleted_key_deleted_among_others() {
    let mut db = MemDb::new("tomb");
    db.set("x", Field::Primitive(Primitive::Integer(1)));
    db.set("y", Field::Primitive(Primitive::Integer(2)));
    db.set("z", Field::Primitive(Primitive::Integer(3)));
    db.flush();
    db.delete("y");
    db.flush();
    let reopened = db.reopen();
    let keys: Vec<Vec<u8>> = reopened.keys().iter().map(|k| k.as_bytes().to_vec()).collect();
    assert_eq!(keys, vec![b"x".to_vec(), b"z".to_vec()]);
    assert_eq!(reopened.len(), 2);
}

#[test]
fn flush_writes_record_count() {
    let mut db = MemDb::new("count");
    db.set("a", Field::Primitive(Primitive::Integer(1)));
    db.set("b", Field::Primitive(Primitive::Integer(2)));
    db.flush();
    let pos = RECORD_COUNT_OFFSET as usize;
    assert_eq!(pos, 34);
    assert_eq!(&db.file[pos..pos + 8], &2u64.to_le_bytes());
    assert_eq!(db.state().record_count_update(), (34, 2u64.to_le_bytes().to_vec()));
}

#[test]
fn flush_plan_keeps_last_entry_per_key() {
    let state = State::new();
    let entries = vec![
        WalEntry::SetField(Key::from("a"), Field::Primitive(Primitive::Integer(1))),
        WalEntry::SetField(Key::from("b"), Field::Primitive(Primitive::Integer(2))),
        WalEntry::SetField(Key::from("a"), Field::Primitive(Primitive::Integer(3))),
    ];
    let ops = state.plan_flush(&entries);
    assert_eq!(ops.len(), 2);
    match &ops[0] {
        FlushOp::Append { key, record, key_len, field_len } => {
            assert_eq!(key.as_bytes(), b"b");
            assert_eq!(*key_len, 1);
            assert_eq!(*field_len as usize, bytes_from_field(&Field::Primitive(Primitive::Integer(2))).len());
            let (k, f) = decode(record).expect("record");
            assert_eq!(k.as_bytes(), b"b");
            assert!(matches!(f, Field::Primitive(Primitive::Integer(2))));
        }
        _ => panic!("expected an append"),
    }
    match &ops[1] {
        FlushOp::Append { key, record, .. } => {
            assert_eq!(key.as_bytes(), b"a");
            assert_eq!(record, &encode(&Key::from("a"), &Field::Primitive(Primitive::Integer(3))));
        }
        _ => panic!("expected an append"),
    }
}

#[test]
fn flush_plan_skips_delete_of_unwritten_key() {
    let state = State::new();
    let entries = vec![WalEntry::Delete(Key::from("never-written"))];
    assert!(state.plan_flush(&entries).is_empty());
}

#[test]
fn flush_plan_overwrites_written_record() {
    let mut db = MemDb::new("plan");
    db.set("gone", Field::Primitive(Primitive::Integer(7)));
    db.flush();
    let entries = vec![WalEntry::Delete(Key::from("gone"))];
    let ops = db.state().plan_flush(&entries);
    assert_eq!(ops.len(), 1);
    match &ops[0] {
        FlushOp::Tombstone { key, offset, bytes } => {
            assert_eq!(key.as_bytes(), b"gone");
            assert_eq!(*offset, 114);
            let mut deleter = DBDeleter::new();
            deleter.set_key_len(4);
            deleter.set_field_len(bytes_from_field(&Field::Primitive(Primitive::Integer(7))).len() as u32);
            deleter.get_deleted_field();
            assert_eq!(bytes.as_slice(), deleter.finish());
            assert_eq!(bytes.len(), encode(&Key::from("gone"), &Field::Primitive(Primitive::Integer(7))).len());
            assert_eq!(&bytes[0..4], &[0, 0, 0, 0]);
        }
        _ => panic!("expected a tombstone"),
    }
}

#[test]
fn net_entries_keep_last_per_key_in_order() {
    let entries = vec![
        WalEntry::SetField(Key::from("a"), Field::Primitive(Primitive::Integer(1))),
        WalEntry::Delete(Key::from("b")),
        WalEntry::Delete(Key::from("a")),
        WalEntry::SetField(Key::from("c"), Field::Primitive(Primitive::Integer(2))),
    ];
    let net = net_entries_of(&entries);
    assert_eq!(net.len(), 3);
    assert!(matches!(&net[0], WalEntry::Delete(k) if k.as_bytes() == b"b"));
    assert!(matches!(&net[1], WalEntry::Delete(k) if k.as_bytes() == b"a"));
    assert!(matches!(&net[2], WalEntry::SetField(k, _) if k.as_bytes() == b"c"));
}

#[test]
fn state_set_get_delete_and_keys() {
    let mut state = State::new();
    assert!(matches!(state.get(&Key::from("k")), Err(PeachDbError::KeyNotFound)));
    state.set(Key::from("k"), Field::Primitive(Primitive::Integer(5)));
    state.set(Key::from("j"), Field::Primitive(Primitive::Integer(6)));
    state.set(Key::from("k"), Field::Primitive(Primitive::Integer(8)));
    assert!(matches!(state.get(&Key::from("k")), Ok(Field::Primitive(Primitive::Integer(8)))));
    let keys: Vec<Vec<u8>> = state.keys().iter().map(|k| k.as_bytes().to_vec()).collect();
    assert_eq!(keys, vec![b"k".to_vec(), b"j".to_vec()]);
    state.delete(&Key::from("k"));
    state.delete(&Key::from("missing"));
    assert!(matches!(state.get(&Key::from("k")), Err(PeachDbError::KeyNotFound)));
    assert_eq!(state.len(), 1);
}

#[test]
fn new_database_header() {
    let header = new_db_header("peachdb".to_string());
    assert_eq!(header.len(), 114);
    assert_eq!(&header[0..8], b"Header--");
    assert_eq!(&header[16..24], b"Version-");
    assert_eq!(header[24], 1);
    assert_eq!(&header[26..34], b"RecCount");
    assert_eq!(&header[34..42], &0u64.to_le_bytes());
    assert_eq!(&header[42..50], b"DB Name-");
    assert_eq!(&header[50..57], b"peachdb");
    let state = State::init(&header, &[], &Wal::new()).expect("init");
    assert_eq!(state.len(), 0);
}

#[test]
fn db_name_length_limit() {
    assert!(check_db_name(&"a".repeat(64)).is_ok());
    assert!(matches!(check_db_name(&"a".repeat(65)), Err(PeachDbError::DBNameToLong)));
    assert!(check_db_name(&String::new()).is_ok());
}

#[test]
fn init_rejects_corrupted_data_file() {
    let mut db = MemDb::new("corrupt");
    db.set("key", Field::Primitive(Primitive::Integer(1)));
    db.flush();
    let last = db.file.len() - 1;
    db.file[last] ^= 0xff;
    let r = State::init(&db.file, &db.index_file, &Wal::new());
    assert!(matches!(r, Err(PeachDbError::CorruptedRecord { .. })));
    let r = State::init(&db.file[..20], &[], &Wal::new());
    assert!(r.is_err());
}

#[test]
fn reopen_after_flushes_of_many_writes() {
    let mut db = MemDb::new("many");
    for i in 0..20i64 {
        db.set(&format!("k{}", i % 7), Field::Primitive(Primitive::Integer(i)));
        if i % 3 == 0 {
            db.delete(&format!("k{}", (i + 1) % 7));
        }
    }
    db.flush();
    let reopened = db.reopen();
    let mut expected = db.state().keys().iter().map(|k| k.as_bytes().to_vec()).collect::<Vec<_>>();
    let mut got = reopened.keys().iter().map(|k| k.as_bytes().to_vec()).collect::<Vec<_>>();
    expected.sort();
    got.sort();
    assert_eq!(expected, got);
    for k in db.state().keys() {
        let a = db.state().get(&k).expect("in memory");
        let b = reopened.get(&k).expect("reopened");
        assert_eq!(bytes_from_field(&a), bytes_from_field(&b));
    }
}

#[test]
fn delete_reaches_only_the_latest_record_of_a_key() {
    // A key written in two flushes keeps its older record in the data file; the delete
    // overwrites only the record the index gives, so a reopen reads the older value.
    let mut db = MemDb::new("two");
    db.set("k", Field::Primitive(Primitive::Integer(1)));
    db.flush();
    db.set("k", Field::Primitive(Primitive::Integer(2)));
    db.flush();
    db.delete("k");
    db.flush();
    assert!(matches!(db.state().get(&Key::from("k")), Err(PeachDbError::KeyNotFound)));
    let reopened = db.reopen();
    assert!(matches!(reopened.get(&Key::from("k")), Ok(Field::Primitive(Primitive::Integer(1)))));
}

#[test]
fn store_reopens_with_its_log() {
    let mut db = MemDb::new("store");
    db.set("a", Field::Primitive(Primitive::Integer(1)));
    db.flush();
    db.set("b", Field::Primitive(Primitive::Integer(2)));
    db.delete("a");
    assert_eq!(db.store.entries().len(), 2);
    let reopened = db.reopen_store();
    assert_eq!(reopened.entries().len(), 2);
    assert!(matches!(reopened.state().get(&Key::from("a")), Err(PeachDbError::KeyNotFound)));
    assert!(matches!(reopened.state().get(&Key::from("b")), Ok(Field::Primitive(Primitive::Integer(2)))));
}
