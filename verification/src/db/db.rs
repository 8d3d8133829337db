//! The database's in-memory state: its values, where their records lie in the data file, and
//! the decisions of its operations.

use vstd::prelude::*;
use crate::db::codec::{
    encode, insert_all, spec_db_header_bytes, spec_decode_db_file, spec_decode_index_from,
    spec_decode_index_from_db, spec_index_bytes, spec_record_bytes, spec_tombstone_bytes, DBDecoder,
    DBDeleter, DBEncoder, IndexDecoder, IndexEncoder, IndexFromDBDecoder,
};
use crate::db::keymap::KeyMap;
use crate::db::wal::{entries_view, Wal, WalEntry, WalEntryV};
use crate::db::{DbMeta, DbMetaV};
use crate::dtypes::{bytes_from_field, copy_bytes, spec_field_bytes, Field, FieldV, Key, PDBResult};
use crate::error::{DecodeFailure, PeachDbError};

verus! {

/// Where a key's record lies in the data file, and the lengths it was written with.
#[derive(Clone, Copy, Debug, PartialEq, Eq, Structural)]
pub struct IndexEntry {
    /// The position of the record's magic number.
    pub offset: u64,
    /// The length of the key, as stored in the record.
    pub key_len: u16,
    /// The length of the field's bytes, as stored in the record.
    pub field_len: u32,
}

impl View for IndexEntry {
    type V = IndexEntry;

    open spec fn view(&self) -> IndexEntry {
        *self
    }
}

/// Where the header keeps the record count: after `Header--`, the magic number, `Version-`, the
/// two version bytes and `RecCount`.
pub const RECORD_COUNT_OFFSET: u64 = 34;

/// The longest database name, in bytes.
pub const MAX_DB_NAME_LEN: usize = 64;

/// The map after applying log entries in order: a set maps its key to its field, a delete
/// removes its key.
pub open spec fn apply_entries(m: Map<Seq<u8>, FieldV>, es: Seq<WalEntryV>) -> Map<Seq<u8>, FieldV>
    decreases es.len(),
{
    if es.len() == 0 {
        m
    } else {
        let prev = apply_entries(m, es.drop_last());
        match es.last() {
            WalEntryV::SetField(k, f) => prev.insert(k, f),
            WalEntryV::Delete(k) => prev.remove(k),
        }
    }
}

/// Applying one more entry is applying it to what the others gave.
pub proof fn lemma_apply_entries_push(m: Map<Seq<u8>, FieldV>, es: Seq<WalEntryV>, e: WalEntryV)
    ensures
        apply_entries(m, es.push(e)) == apply_entries(apply_entries(m, es), seq![e]),
{
    assert(es.push(e).drop_last() =~= es);
    assert(seq![e].drop_last() =~= Seq::<WalEntryV>::empty());
    assert(seq![e].last() == e);
    let x = apply_entries(m, es);
    assert(apply_entries(x, seq![e].drop_last()) == x);
}

/// Whether the entry at `i` is the last one about its key.
pub open spec fn is_last(es: Seq<WalEntryV>, i: int) -> bool {
    forall|j: int| i < j < es.len() ==> #[trigger] es[j].key() != es[i].key()
}

/// The entries among the first `n` that are the last about their key, in order.
pub open spec fn net_prefix(es: Seq<WalEntryV>, n: int) -> Seq<WalEntryV>
    decreases n,
{
    if n <= 0 {
        Seq::empty()
    } else if is_last(es, n - 1) {
        net_prefix(es, n - 1).push(es[n - 1])
    } else {
        net_prefix(es, n - 1)
    }
}

/// The last entry about each key, in the order of those entries: what a flush writes.
pub open spec fn net_entries(es: Seq<WalEntryV>) -> Seq<WalEntryV> {
    net_prefix(es, es.len() as int)
}

/// Whether the values agree with the log: each key's last entry is a set of its current value,
/// or a delete of a key that has none.
pub open spec fn wal_consistent(fields: Map<Seq<u8>, FieldV>, es: Seq<WalEntryV>) -> bool {
    forall|i: int|
        0 <= i < es.len() && #[trigger] is_last(es, i) ==> match es[i] {
            WalEntryV::SetField(k, f) => fields.contains_key(k) && fields[k] == f,
            WalEntryV::Delete(k) => !fields.contains_key(k),
        }
}

/// One write of a flush to the data file.
#[derive(Debug)]
pub enum FlushOp {
    /// Append a key's record; its entry in the index gets the offset the append returns.
    Append { key: Key, record: Vec<u8>, key_len: u16, field_len: u32 },
    /// Overwrite the record at `offset` with its deleted form.
    Tombstone { key: Key, offset: u64, bytes: Vec<u8> },
}

/// The mathematical value of a [`FlushOp`].
pub enum FlushOpV {
    Append { key: Seq<u8>, record: Seq<u8>, key_len: u16, field_len: u32 },
    Tombstone { key: Seq<u8>, offset: u64, bytes: Seq<u8> },
}

impl View for FlushOp {
    type V = FlushOpV;

    open spec fn view(&self) -> FlushOpV {
        match self {
            FlushOp::Append { key, record, key_len, field_len } => FlushOpV::Append {
                key: key@,
                record: record@,
                key_len: *key_len,
                field_len: *field_len,
            },
            FlushOp::Tombstone { key, offset, bytes } => FlushOpV::Tombstone {
                key: key@,
                offset: *offset,
                bytes: bytes@,
            },
        }
    }
}

/// The values of a sequence of flush writes.
pub open spec fn ops_view(ops: Seq<FlushOp>) -> Seq<FlushOpV> {
    ops.map_values(|o: FlushOp| o@)
}

/// The write a flush makes for one net log entry: a set appends its key's record; a delete of a
/// key that has a record overwrites that record with its deleted form; a delete of a key that
/// was never written makes none.
pub open spec fn spec_flush_op(e: WalEntryV, index: Map<Seq<u8>, IndexEntry>) -> Seq<FlushOpV> {
    match e {
        WalEntryV::SetField(k, f) => seq![
            FlushOpV::Append {
                key: k,
                record: spec_record_bytes(k, f),
                key_len: k.len() as u16,
                field_len: spec_field_bytes(f).len() as u32,
            },
        ],
        WalEntryV::Delete(k) => if index.contains_key(k) {
            seq![
                FlushOpV::Tombstone {
                    key: k,
                    offset: index[k].offset,
                    bytes: spec_tombstone_bytes(index[k].key_len, index[k].field_len),
                },
            ]
        } else {
            Seq::empty()
        },
    }
}

/// The writes a flush makes for net log entries, in order.
pub open spec fn spec_flush_ops(net: Seq<WalEntryV>, index: Map<Seq<u8>, IndexEntry>) -> Seq<FlushOpV>
    decreases net.len(),
{
    if net.len() == 0 {
        Seq::empty()
    } else {
        spec_flush_ops(net.drop_last(), index) + spec_flush_op(net.last(), index)
    }
}

/// The index after a flush's writes: each appended key maps to the offset its append returned
/// (the `i`-th append's is `offsets[i]`), each overwritten key is removed.
pub open spec fn spec_flushed_index(
    index: Map<Seq<u8>, IndexEntry>,
    ops: Seq<FlushOpV>,
    offsets: Seq<u64>,
) -> Map<Seq<u8>, IndexEntry>
    decreases ops.len(),
{
    if ops.len() == 0 {
        index
    } else {
        let prev = spec_flushed_index(index, ops.drop_last(), offsets);
        match ops.last() {
            FlushOpV::Append { key, key_len, field_len, .. } => prev.insert(
                key,
                IndexEntry { offset: offsets[spec_appends_before(ops.drop_last())], key_len, field_len },
            ),
            FlushOpV::Tombstone { key, .. } => prev.remove(key),
        }
    }
}

/// The number of appends among flush writes.
pub open spec fn spec_appends_before(ops: Seq<FlushOpV>) -> int
    decreases ops.len(),
{
    if ops.len() == 0 {
        0
    } else {
        spec_appends_before(ops.drop_last()) + if ops.last() is Append {
            1int
        } else {
            0int
        }
    }
}

/// The values after a flush's writes: each overwritten key is removed.
pub open spec fn spec_flushed_fields(fields: Map<Seq<u8>, FieldV>, ops: Seq<FlushOpV>) -> Map<Seq<u8>, FieldV>
    decreases ops.len(),
{
    if ops.len() == 0 {
        fields
    } else {
        let prev = spec_flushed_fields(fields, ops.drop_last());
        match ops.last() {
            FlushOpV::Append { .. } => prev,
            FlushOpV::Tombstone { key, .. } => prev.remove(key),
        }
    }
}

/// The database's state in memory: each key's value, and where each written key's record lies
/// in the data file.
pub struct State {
    fields: KeyMap<Field>,
    index: KeyMap<IndexEntry>,
}

impl State {
    /// The values.
    pub closed spec fn fields(&self) -> Map<Seq<u8>, FieldV> {
        self.fields.view()
    }

    /// Where written keys' records lie.
    pub closed spec fn index(&self) -> Map<Seq<u8>, IndexEntry> {
        self.index.view()
    }

    /// The index's pairs, in the order their keys were first written.
    pub closed spec fn index_pairs(&self) -> Seq<(Seq<u8>, IndexEntry)> {
        self.index.pairs()
    }

    /// The index is the map its pairs stand for.
    pub proof fn lemma_index_pairs(&self)
        ensures
            self.index() == crate::db::keymap::pairs_map(self.index_pairs()),
    {
    }

    /// The keys, in the order they were first set.
    pub closed spec fn key_order(&self) -> Seq<Seq<u8>> {
        self.fields.key_seq()
    }

    /// Whether both maps are well formed.
    pub closed spec fn wf(&self) -> bool {
        self.fields.wf() && self.index.wf()
    }

    /// The facts a well-formed state gives: its key order lists its keys once each.
    pub proof fn lemma_wf(&self)
        requires
            self.wf(),
        ensures
            self.key_order().no_duplicates(),
            self.key_order().to_set() == self.fields().dom(),
            self.fields().dom().finite(),
            self.fields().dom().len() == self.key_order().len(),
    {
        self.fields.lemma_wf();
    }

    /// The state of a new database: no values, no records.
    pub fn new() -> (s: State)
        ensures
            s.wf(),
            s.fields() == Map::<Seq<u8>, FieldV>::empty(),
            s.index() == Map::<Seq<u8>, IndexEntry>::empty(),
    {
        State { fields: KeyMap::new(), index: KeyMap::new() }
    }

    /// The value of `key`; `KeyNotFound` if it has none.
    pub fn get(&self, key: &Key) -> (r: PDBResult<Field>)
        requires
            self.wf(),
        ensures
            self.fields().contains_key(key@) ==> (r matches Ok(f) && f@ == self.fields()[key@]),
            !self.fields().contains_key(key@) ==> (r matches Err(e) && e is KeyNotFound),
    {
        match self.fields.get(key) {
            Some(field) => Ok(field.clone()),
            None => Err(PeachDbError::KeyNotFound),
        }
    }

    /// Sets `key` to `field`, once the set is logged.
    pub fn set(&mut self, key: Key, field: Field)
        requires
            old(self).wf(),
        ensures
            final(self).wf(),
            final(self).fields() == old(self).fields().insert(key@, field@),
            final(self).index() == old(self).index(),
    {
        self.fields.insert(key, field);
    }

    /// Removes `key`'s value, once the delete is logged.
    pub fn delete(&mut self, key: &Key)
        requires
            old(self).wf(),
        ensures
            final(self).wf(),
            final(self).fields() == old(self).fields().remove(key@),
            final(self).index() == old(self).index(),
    {
        let _ = self.fields.remove(key);
    }

    /// Applies a log entry to the values.
    pub fn apply_entry(&mut self, entry: WalEntry)
        requires
            old(self).wf(),
        ensures
            final(self).wf(),
            final(self).fields() == apply_entries(old(self).fields(), seq![entry@]),
            final(self).index() == old(self).index(),
    {
        let ghost e = entry@;
        let ghost f0 = self.fields();
        assert(seq![e].drop_last() =~= Seq::<WalEntryV>::empty());
        assert(seq![e].last() == e);
        assert(apply_entries(f0, seq![e].drop_last()) == f0);
        match entry {
            WalEntry::SetField(key, field) => self.set(key, field),
            WalEntry::Delete(key) => self.delete(&key),
        }
    }

    /// The keys that have a value, each once.
    pub fn keys(&self) -> (ks: Vec<Key>)
        requires
            self.wf(),
        ensures
            ks@.map_values(|k: Key| k@) == self.key_order(),
            ks@.map_values(|k: Key| k@).no_duplicates(),
            ks@.map_values(|k: Key| k@).to_set() == self.fields().dom(),
    {
        proof {
            self.fields.lemma_wf();
        }
        self.fields.keys()
    }

    /// The number of keys that have a value.
    pub fn len(&self) -> (n: usize)
        requires
            self.wf(),
        ensures
            n == self.fields().dom().len(),
    {
        self.fields.len()
    }

    /// The state a reopened database starts with: the data file's records (later ones win), the
    /// index file's entries (or, if it is empty, entries built from the data file), then the
    /// log's entries applied in order.
    pub fn init(file_buf: &[u8], index_file_buf: &[u8], wal: &Wal) -> (r: PDBResult<State>)
        ensures
            match spec_decode_db_file(file_buf@) {
                Err(d) => r matches Err(e) && e.reports(d),
                Ok((_, pairs)) => {
                    let idx = if index_file_buf@.len() != 0 {
                        spec_decode_index_from(index_file_buf@, 0)
                    } else {
                        spec_decode_index_from_db(file_buf@)
                    };
                    match idx {
                        Err(d) => r matches Err(e) && e.reports(d),
                        Ok(ipairs) => r matches Ok(s) && s.wf() && s.fields() == apply_entries(
                            insert_all(Map::empty(), pairs),
                            wal.view(),
                        ) && s.index() == insert_all(Map::empty(), ipairs),
                    }
                },
            },
    {
        let mut decoder = DBDecoder::new(file_buf);
        decoder.decode_db_file()?;
        let (mut fields, _meta) = decoder.finish()?;
        let index = if index_file_buf.len() != 0 {
            let mut index_decoder = IndexDecoder::new(index_file_buf);
            index_decoder.decode_index_file()?;
            index_decoder.finish()?
        } else {
            let mut index_decoder = IndexFromDBDecoder::new(file_buf);
            index_decoder.decode_index_from_file()?;
            index_decoder.finish()?
        };
        let entries = wal.pop_uncommited_entries();
        let ghost m0 = fields.view();
        let ghost idx0 = index.view();
        let mut state = State { fields, index };
        let mut i: usize = 0;
        while i < entries.len()
            invariant
                i <= entries@.len(),
                state.wf(),
                state.index() == idx0,
                state.fields() == apply_entries(m0, entries_view(entries@).subrange(0, i as int)),
            decreases entries@.len() - i,
        {
            let e = entries[i].clone();
            assert(e@ == entries_view(entries@)[i as int]);
            let ghost before = state.fields();
            state.apply_entry(e);
            proof {
                let es = entries_view(entries@);
                assert(es.subrange(0, i + 1) =~= es.subrange(0, i as int).push(es[i as int]));
                lemma_apply_entries_push(m0, es.subrange(0, i as int), es[i as int]);
            }
            i = i + 1;
        }
        assert(entries_view(entries@).subrange(0, entries@.len() as int) =~= entries_view(entries@));
        Ok(state)
    }
}

/// The last entry about each key, in the order of those entries (see [`net_entries`]).
pub fn net_entries_of(entries: &Vec<WalEntry>) -> (net: Vec<WalEntry>)
    ensures
        entries_view(net@) == net_entries(entries_view(entries@)),
{
    let ghost es = entries_view(entries@);
    let mut net: Vec<WalEntry> = Vec::new();
    let mut i: usize = 0;
    while i < entries.len()
        invariant
            i <= entries@.len(),
            es == entries_view(entries@),
            entries_view(net@) == net_prefix(es, i as int),
        decreases entries@.len() - i,
    {
        let mut last = true;
        let mut j: usize = i + 1;
        while j < entries.len()
            invariant
                i < j <= entries@.len(),
                es == entries_view(entries@),
                last ==> forall|k: int| i < k < j ==> #[trigger] es[k].key() != es[i as int].key(),
                !last ==> !is_last(es, i as int),
            decreases entries@.len() - j,
        {
            if crate::dtypes::bytes_eq(entries[j].key().as_bytes(), entries[i].key().as_bytes()) {
                assert(es[j as int].key() == es[i as int].key());
                last = false;
            }
            j = j + 1;
        }
        let ghost before = entries_view(net@);
        if last {
            let e = entries[i].clone();
            net.push(e);
            assert(entries_view(net@) =~= before.push(es[i as int]));
        }
        i = i + 1;
    }
    net
}

impl State {
    /// The writes a flush makes for the log's entries (see [`spec_flush_ops`]): for the last
    /// entry about each key, the record to append or the deleted record to write.
    pub fn plan_flush(&self, entries: &Vec<WalEntry>) -> (ops: Vec<FlushOp>)
        requires
            self.wf(),
        ensures
            ops_view(ops@) == spec_flush_ops(net_entries(entries_view(entries@)), self.index()),
    {
        let net = net_entries_of(entries);
        let ghost nv = entries_view(net@);
        let mut ops: Vec<FlushOp> = Vec::new();
        let mut deleter = DBDeleter::new();
        let mut i: usize = 0;
        while i < net.len()
            invariant
                i <= net@.len(),
                self.wf(),
                nv == entries_view(net@),
                ops_view(ops@) == spec_flush_ops(nv.subrange(0, i as int), self.index()),
                deleter.bytes() == Seq::<u8>::empty(),
            decreases net@.len() - i,
        {
            let ghost before = ops_view(ops@);
            match &net[i] {
                WalEntry::SetField(key, field) => {
                    let record = encode(key, field);
                    let payload = bytes_from_field(field);
                    ops.push(
                        FlushOp::Append {
                            key: key.clone(),
                            record,
                            key_len: #[verifier::truncate] (key.len() as u16),
                            field_len: #[verifier::truncate] (payload.len() as u32),
                        },
                    );
                },
                WalEntry::Delete(key) => {
                    match self.index.get(key) {
                        Some(entry) => {
                            deleter.set_key_len(entry.key_len);
                            deleter.set_field_len(entry.field_len);
                            deleter.get_deleted_field();
                            let bytes = copy_bytes(deleter.finish());
                            deleter.reset();
                            ops.push(FlushOp::Tombstone { key: key.clone(), offset: entry.offset, bytes });
                        },
                        None => {},
                    }
                },
            }
            proof {
                let sub = nv.subrange(0, i + 1);
                assert(sub.drop_last() =~= nv.subrange(0, i as int));
                assert(sub.last() == nv[i as int]);
                assert(ops_view(ops@) =~= before + spec_flush_op(nv[i as int], self.index()));
            }
            i = i + 1;
        }
        assert(nv.subrange(0, nv.len() as int) =~= nv);
        ops
    }

    /// Records a flush's writes: each appended key's index entry gets the offset its append
    /// returned (`offsets` in the order of the appends), each overwritten key leaves the index
    /// and the values.
    pub fn apply_flush(&mut self, ops: &Vec<FlushOp>, offsets: &Vec<u64>)
        requires
            old(self).wf(),
            offsets@.len() == spec_appends_before(ops_view(ops@)),
        ensures
            final(self).wf(),
            final(self).index() == spec_flushed_index(old(self).index(), ops_view(ops@), offsets@),
            final(self).fields() == spec_flushed_fields(old(self).fields(), ops_view(ops@)),
    {
        let ghost ov = ops_view(ops@);
        let ghost idx0 = self.index();
        let ghost f0 = self.fields();
        let mut a: usize = 0;
        let mut i: usize = 0;
        let n_offsets = offsets.len();
        proof {
            lemma_appends_monotone(ov, 0, ov.len() as int);
        }
        while i < ops.len()
            invariant
                i <= ops@.len(),
                self.wf(),
                ov == ops_view(ops@),
                offsets@.len() == spec_appends_before(ov),
                n_offsets == offsets@.len(),
                a == spec_appends_before(ov.subrange(0, i as int)),
                a <= offsets@.len(),
                self.index() == spec_flushed_index(idx0, ov.subrange(0, i as int), offsets@),
                self.fields() == spec_flushed_fields(f0, ov.subrange(0, i as int)),
            decreases ops@.len() - i,
        {
            let ghost sub = ov.subrange(0, i + 1);
            proof {
                assert(sub.drop_last() =~= ov.subrange(0, i as int));
                assert(sub.last() == ov[i as int]);
                lemma_appends_monotone(ov, i + 1, ov.len() as int);
                assert(ov.subrange(0, ov.len() as int) =~= ov);
            }
            match &ops[i] {
                FlushOp::Append { key, key_len, field_len, .. } => {
                    assert(spec_appends_before(sub) == a + 1);
                    assert(a < offsets@.len());
                    let entry = IndexEntry { offset: offsets[a], key_len: *key_len, field_len: *field_len };
                    self.index.insert(key.clone(), entry);
                    a = a + 1;
                },
                FlushOp::Tombstone { key, .. } => {
                    let _ = self.index.remove(key);
                    let _ = self.fields.remove(key);
                },
            }
            i = i + 1;
        }
        assert(ov.subrange(0, ov.len() as int) =~= ov);
    }

    /// Where and what to write so that the header's record count is the number of keys.
    pub fn record_count_update(&self) -> (r: (u64, Vec<u8>))
        requires
            self.wf(),
        ensures
            r.0 == RECORD_COUNT_OFFSET,
            r.1@ == vstd::bytes::spec_u64_to_le_bytes(self.fields().dom().len() as u64),
    {
        let count = self.fields.len() as u64;
        (RECORD_COUNT_OFFSET, crate::endian::u64_le(count))
    }

    /// The bytes of the index file for the current index, its pairs in order.
    pub fn index_file_bytes(&self) -> (b: Vec<u8>)
        requires
            self.wf(),
        ensures
            b@ == spec_index_bytes(self.index_pairs()),
    {
        let mut encoder = IndexEncoder::new();
        encoder.encode_index_file(&self.index);
        copy_bytes(encoder.finish())
    }
}

/// Appends never decrease in number as more writes are counted.
pub proof fn lemma_appends_monotone(ops: Seq<FlushOpV>, i: int, j: int)
    requires
        0 <= i <= j <= ops.len(),
    ensures
        spec_appends_before(ops.subrange(0, i)) <= spec_appends_before(ops.subrange(0, j)),
        spec_appends_before(ops.subrange(0, i)) >= 0,
    decreases j - i,
{
    if i < j {
        lemma_appends_monotone(ops, i, j - 1);
        assert(ops.subrange(0, j).drop_last() =~= ops.subrange(0, j - 1));
    } else {
        lemma_appends_nonneg(ops.subrange(0, i));
    }
}

/// The number of appends is never negative.
pub proof fn lemma_appends_nonneg(ops: Seq<FlushOpV>)
    ensures
        spec_appends_before(ops) >= 0,
    decreases ops.len(),
{
    if ops.len() > 0 {
        lemma_appends_nonneg(ops.drop_last());
    }
}

/// The header of a new database named `name`: version 1, no records.
pub fn new_db_header(name: String) -> (b: Vec<u8>)
    ensures
        b@ == spec_db_header_bytes(DbMetaV { version: 1, record_count: 0, name: name@ }),
{
    let meta = DbMeta { name, version: 1, record_count: 0 };
    let mut encoder = DBEncoder::new();
    encoder.encode_db_header(&meta);
    copy_bytes(encoder.finish())
}

/// Whether a database may be opened under `name`: its length in bytes is at most 64, else
/// `DBNameToLong`.
pub fn check_db_name(name: &String) -> (r: PDBResult<()>)
    ensures
        r is Ok <==> vstd::utf8::encode_utf8(name@).len() <= MAX_DB_NAME_LEN,
        r matches Err(e) ==> e is DBNameToLong,
{
    if name.as_str().as_bytes().len() > MAX_DB_NAME_LEN {
        return Err(PeachDbError::DBNameToLong);
    }
    Ok(())
}

/// A set is read back: after `set(k, f)` the value of `k` is `f`, and other keys keep theirs.
pub proof fn law_get_after_set(fields: Map<Seq<u8>, FieldV>, k: Seq<u8>, f: FieldV, other: Seq<u8>)
    ensures
        fields.insert(k, f).contains_key(k),
        fields.insert(k, f)[k] == f,
        other != k ==> (fields.insert(k, f).contains_key(other) == fields.contains_key(other)
            && fields.insert(k, f)[other] == fields[other]),
{
}

/// A delete is read back: after `delete(k)` the key has no value, and other keys keep theirs.
pub proof fn law_get_after_delete(fields: Map<Seq<u8>, FieldV>, k: Seq<u8>, other: Seq<u8>)
    ensures
        !fields.remove(k).contains_key(k),
        other != k ==> (fields.remove(k).contains_key(other) == fields.contains_key(other)
            && fields.remove(k)[other] == fields[other]),
{
}

/// Logging an entry and applying it keeps the values in agreement with the log.
pub proof fn law_log_keeps_consistency(fields: Map<Seq<u8>, FieldV>, es: Seq<WalEntryV>, e: WalEntryV)
    requires
        wal_consistent(fields, es),
    ensures
        wal_consistent(apply_entries(fields, seq![e]), es.push(e)),
{
    let es2 = es.push(e);
    let f2 = apply_entries(fields, seq![e]);
    assert(seq![e].drop_last() =~= Seq::<WalEntryV>::empty());
    assert(seq![e].last() == e);
    assert(apply_entries(fields, seq![e].drop_last()) == fields);
    assert forall|i: int| 0 <= i < es2.len() && #[trigger] is_last(es2, i) implies match es2[i] {
        WalEntryV::SetField(k, f) => f2.contains_key(k) && f2[k] == f,
        WalEntryV::Delete(k) => !f2.contains_key(k),
    } by {
        if i < es.len() {
            assert(es2[es.len() as int] == e);
            assert(e.key() != es[i].key());
            assert(is_last(es, i)) by {
                assert forall|j: int| i < j < es.len() implies #[trigger] es[j].key() != es[i].key() by {
                    assert(es2[j] == es[j]);
                }
            }
            assert(es2[i] == es[i]);
        }
    }
}

/// Replaying a log over any values leaves the values in agreement with the log.
pub proof fn law_replay_consistent(m: Map<Seq<u8>, FieldV>, es: Seq<WalEntryV>)
    ensures
        wal_consistent(apply_entries(m, es), es),
    decreases es.len(),
{
    if es.len() > 0 {
        let init = es.drop_last();
        law_replay_consistent(m, init);
        law_log_keeps_consistency(apply_entries(m, init), init, es.last());
        lemma_apply_entries_push(m, init, es.last());
        assert(init.push(es.last()) =~= es);
    } else {
        assert forall|i: int| 0 <= i < es.len() && #[trigger] is_last(es, i) implies false by {}
    }
}

/// Whether the values agree with one log entry: a set's key has its field, a delete's key has
/// no value.
pub open spec fn agrees(fields: Map<Seq<u8>, FieldV>, e: WalEntryV) -> bool {
    match e {
        WalEntryV::SetField(k, f) => fields.contains_key(k) && fields[k] == f,
        WalEntryV::Delete(k) => !fields.contains_key(k),
    }
}

/// Values in agreement with the log agree with each of its net entries.
pub proof fn lemma_net_prefix_agrees(fields: Map<Seq<u8>, FieldV>, es: Seq<WalEntryV>, n: int)
    requires
        0 <= n <= es.len(),
        wal_consistent(fields, es),
    ensures
        forall|j: int| 0 <= j < net_prefix(es, n).len() ==> agrees(fields, #[trigger] net_prefix(es, n)[j]),
    decreases n,
{
    if n > 0 {
        lemma_net_prefix_agrees(fields, es, n - 1);
        let prev = net_prefix(es, n - 1);
        if is_last(es, n - 1) {
            assert(agrees(fields, es[n - 1]));
            assert forall|j: int| 0 <= j < net_prefix(es, n).len() implies agrees(fields, #[trigger] net_prefix(es, n)[j]) by {
                if j < prev.len() {
                    assert(net_prefix(es, n)[j] == prev[j]);
                } else {
                    assert(net_prefix(es, n)[j] == es[n - 1]);
                }
            }
        } else {
            assert(net_prefix(es, n) == prev);
        }
    }
}

/// A flush's writes leave the values as they were: it overwrites only records of keys whose last
/// entry is a delete, and those keys have no value already.
pub proof fn law_flush_keeps_fields(
    fields: Map<Seq<u8>, FieldV>,
    es: Seq<WalEntryV>,
    index: Map<Seq<u8>, IndexEntry>,
)
    requires
        wal_consistent(fields, es),
    ensures
        spec_flushed_fields(fields, spec_flush_ops(net_entries(es), index)) == fields,
{
    lemma_net_prefix_agrees(fields, es, es.len() as int);
    lemma_flushed_fields_of_deletes(fields, net_entries(es), index);
}

/// Writing the flush ops of entries the values agree with leaves the values unchanged.
proof fn lemma_flushed_fields_of_deletes(
    fields: Map<Seq<u8>, FieldV>,
    net: Seq<WalEntryV>,
    index: Map<Seq<u8>, IndexEntry>,
)
    requires
        forall|j: int| 0 <= j < net.len() ==> agrees(fields, #[trigger] net[j]),
    ensures
        spec_flushed_fields(fields, spec_flush_ops(net, index)) == fields,
    decreases net.len(),
{
    if net.len() > 0 {
        let init = net.drop_last();
        assert forall|j: int| 0 <= j < init.len() implies agrees(fields, #[trigger] init[j]) by {
            assert(init[j] == net[j]);
        }
        lemma_flushed_fields_of_deletes(fields, init, index);
        let last = net.last();
        assert(agrees(fields, net[net.len() - 1]));
        assert(spec_flush_ops(net, index) == spec_flush_ops(init, index) + spec_flush_op(last, index));
        lemma_flushed_fields_append(fields, spec_flush_ops(init, index), spec_flush_op(last, index));
        let op = spec_flush_op(last, index);
        match last {
            WalEntryV::SetField(k, f) => {
                assert(op.drop_last() =~= Seq::<FlushOpV>::empty());
                assert(spec_flushed_fields(fields, op) == spec_flushed_fields(fields, op.drop_last()));
            },
            WalEntryV::Delete(k) => {
                assert(!fields.contains_key(k));
                if index.contains_key(k) {
                    assert(op.drop_last() =~= Seq::<FlushOpV>::empty());
                    assert(fields.remove(k) =~= fields);
                    assert(spec_flushed_fields(fields, op) == spec_flushed_fields(fields, op.drop_last()).remove(k));
                } else {
                    assert(op =~= Seq::<FlushOpV>::empty());
                }
            },
        }
    }
}

/// The values after two runs of writes are those after the first, then the second.
proof fn lemma_flushed_fields_append(fields: Map<Seq<u8>, FieldV>, a: Seq<FlushOpV>, b: Seq<FlushOpV>)
    ensures
        spec_flushed_fields(fields, a + b) == spec_flushed_fields(spec_flushed_fields(fields, a), b),
    decreases b.len(),
{
    if b.len() == 0 {
        assert(a + b =~= a);
    } else {
        lemma_flushed_fields_append(fields, a, b.drop_last());
        assert((a + b).drop_last() =~= a + b.drop_last());
        assert((a + b).last() == b.last());
    }
}

/// The header keeps the record count at [`RECORD_COUNT_OFFSET`]: writing a count's eight bytes
/// there gives the header of the same database with that count.
pub proof fn law_record_count_offset(meta: DbMetaV, n: u64)
    ensures
        spec_db_header_bytes(meta).subrange(34, 42) == vstd::bytes::spec_u64_to_le_bytes(meta.record_count),
        spec_db_header_bytes(meta).subrange(0, 34) + vstd::bytes::spec_u64_to_le_bytes(n)
            + spec_db_header_bytes(meta).subrange(42, 114) == spec_db_header_bytes(
            DbMetaV { record_count: n, ..meta },
        ),
{
    crate::endian::lemma_endian_roundtrips();
    let h = spec_db_header_bytes(meta);
    let h2 = spec_db_header_bytes(DbMetaV { record_count: n, ..meta });
    assert(h.subrange(34, 42) =~= vstd::bytes::spec_u64_to_le_bytes(meta.record_count));
    assert(h.subrange(0, 34) + vstd::bytes::spec_u64_to_le_bytes(n) + h.subrange(42, 114) =~= h2);
}

} // verus!
